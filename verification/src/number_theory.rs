//! Mathematical definitions and lemmas shared by the integer algorithms.
use vstd::arithmetic::div_mod::*;
use vstd::arithmetic::mul::*;
use vstd::prelude::*;

verus! {

/// `d` divides `n` (with the convention that only 0 is divisible by 0).
pub open spec fn divides(d: nat, n: nat) -> bool {
    if d == 0 {
        n == 0
    } else {
        n % d == 0
    }
}

/// Greatest common divisor, by Euclid's recursion.
pub open spec fn gcd_spec(a: nat, b: nat) -> nat
    decreases b,
{
    if b == 0 {
        a
    } else {
        gcd_spec(b, a % b)
    }
}

/// The gcd divides both arguments.
pub proof fn lemma_gcd_divides(a: nat, b: nat)
    ensures
        divides(gcd_spec(a, b), a),
        divides(gcd_spec(a, b), b),
    decreases b,
{
    if b == 0 {
        if a > 0 {
            lemma_mod_self_0(a as int);
        }
    } else {
        lemma_gcd_divides(b, a % b);
        let g = gcd_spec(b, a % b);
        lemma_fundamental_div_mod(a as int, b as int);
        if g == 0 {
            assert(b == 0);
        } else {
            // a = b * (a / b) + a % b, and g divides b and a % b
            lemma_mod_multiples_vanish_gen(b as int, (a / b) as int, (a % b) as int, g as int);
        }
    }
}

/// If `g` divides `x` then it divides `x * k + r` exactly when it divides `r`.
proof fn lemma_mod_multiples_vanish_gen(x: int, k: int, r: int, g: int)
    requires
        g > 0,
        x % g == 0,
    ensures
        (x * k + r) % g == r % g,
{
    lemma_mul_mod_noop_left(x, k, g);
    assert((x % g) * k == 0);
    lemma_small_mod(0, g as nat);
    lemma_add_mod_noop(x * k, r, g);
    lemma_mod_twice(r, g);
}

/// Every common divisor of `a` and `b` divides their gcd.
pub proof fn lemma_common_divisor_divides_gcd(a: nat, b: nat, d: nat)
    requires
        d > 0,
        a % d == 0,
        b % d == 0,
    ensures
        gcd_spec(a, b) % d == 0,
    decreases b,
{
    if b > 0 {
        lemma_fundamental_div_mod(a as int, b as int);
        // a % b = a - b * (a / b)
        lemma_mod_multiples_vanish_gen(b as int, (a / b) as int, (a % b) as int, d as int);
        lemma_common_divisor_divides_gcd(b, a % b, d);
    }
}

/// Bezout coefficients `(x, y)` with `a * x + b * y == gcd(a, b)`, by the
/// extended Euclidean recursion.
pub open spec fn bezout(a: nat, b: nat) -> (int, int)
    decreases b,
{
    if b == 0 {
        (1, 0)
    } else {
        let (x, y) = bezout(b, a % b);
        (y, x - (a / b) as int * y)
    }
}

/// Bezout's identity.
pub proof fn lemma_bezout(a: nat, b: nat)
    ensures
        a * bezout(a, b).0 + b * bezout(a, b).1 == gcd_spec(a, b),
    decreases b,
{
    if b > 0 {
        lemma_bezout(b, a % b);
        let (x, y) = bezout(b, a % b);
        let q = (a / b) as int;
        let r = (a % b) as int;
        lemma_fundamental_div_mod(a as int, b as int);
        assert(a as int == b * q + r);
        // a*y + b*(x - q*y) == b*x + (a - b*q)*y == b*x + r*y
        assert(a * y + b * (x - q * y) == b * x + r * y) by (nonlinear_arith)
            requires
                a as int == b * q + r,
        ;
        assert(bezout(a, b) == (y, x - q * y));
        assert(gcd_spec(a, b) == gcd_spec(b, a % b));
        assert(b * x + r * y == gcd_spec(b, a % b));
        assert(a * bezout(a, b).0 + b * bezout(a, b).1 == a * y + b * (x - q * y));
    } else {
        assert(bezout(a, b) == (1int, 0int));
        assert(a * 1int + b * 0int == a);
    }
}

/// The only divisors of a prime `p` are 1 and `p`.
pub proof fn lemma_prime_divisors(p: nat, d: nat)
    requires
        crate::primes::prime(p),
        d > 0,
        p % d == 0,
    ensures
        d == 1 || d == p,
{
    crate::primes::lemma_mod_is_zero_ge(p, d);
    if d != 1 && d != p {
        assert(2 <= d < p);
        assert(p % d != 0);
    }
}

/// Euclid's lemma: a prime dividing a product divides one of the factors.
pub proof fn lemma_euclid(p: nat, a: nat, b: nat)
    requires
        crate::primes::prime(p),
        (a * b) % p == 0,
    ensures
        a % p == 0 || b % p == 0,
{
    if a % p != 0 {
        let g = gcd_spec(p, a);
        lemma_gcd_divides(p, a);
        assert(g > 0);
        lemma_prime_divisors(p, g);
        assert(g == 1);
        lemma_bezout(p, a);
        let (x, y) = bezout(p, a);
        // b == p*(b*x) + (a*b)*y
        assert(b as int == p * (b * x) + (a * b) * y) by {
            assert(p * x + a * y == 1);
            lemma_mul_is_distributive_add(b as int, p * x, a * y);
            lemma_mul_is_associative(b as int, p as int, x);
            lemma_mul_is_commutative(b as int, p as int);
            lemma_mul_is_associative(p as int, b as int, x);
            lemma_mul_is_associative(b as int, a as int, y);
            lemma_mul_is_commutative(b as int, a as int);
            lemma_mul_basics(b as int);
        }
        // both terms are multiples of p
        lemma_mod_multiples_basic(b * x, p as int);
        lemma_mul_is_commutative(b * x, p as int);
        lemma_fundamental_div_mod((a * b) as int, p as int);
        let k = (a * b) as int / p as int;
        assert((a * b) as int == p * k);
        assert((a * b) * y == p * (k * y)) by {
            lemma_mul_is_associative(p as int, k, y);
        }
        assert(b as int == p * (b * x + k * y)) by {
            lemma_mul_is_distributive_add(p as int, b * x, k * y);
        }
        lemma_mod_multiples_basic(b * x + k * y, p as int);
        lemma_mul_is_commutative(b * x + k * y, p as int);
    }
}

/// From `n1 * x + n2 * y == 1`: `(y mod n1) * n2` is 1 modulo `n1`.
pub proof fn lemma_crt_coefficient(n1: int, n2: int, x: int, y: int)
    requires
        n1 >= 1,
        n1 * x + n2 * y == 1,
    ensures
        ((y % n1) * n2) % n1 == 1int % n1,
{
    lemma_mul_mod_noop_left(y, n2, n1);
    assert(y * n2 == 1 + n1 * (-x)) by (nonlinear_arith)
        requires
            n1 * x + n2 * y == 1,
    ;
    lemma_mod_multiples_vanish_gen(n1, -x, 1, n1);
    lemma_mod_self_0(n1);
}

/// Two numbers below `n1 * n2` (coprime `n1`, `n2`) with the same residues
/// modulo `n1` and modulo `n2` are equal (uniqueness in the Chinese remainder
/// theorem).
pub proof fn lemma_crt_unique(n1: nat, n2: nat, x: nat, y: nat)
    requires
        n1 >= 1,
        n2 >= 1,
        gcd_spec(n1, n2) == 1,
        x < n1 * n2,
        y < n1 * n2,
        x % n1 == y % n1,
        x % n2 == y % n2,
    ensures
        x == y,
{
    let d = x - y;
    lemma_bezout(n1, n2);
    let (u, v) = bezout(n1, n2);
    lemma_fundamental_div_mod(x as int, n1 as int);
    lemma_fundamental_div_mod(y as int, n1 as int);
    lemma_fundamental_div_mod(x as int, n2 as int);
    lemma_fundamental_div_mod(y as int, n2 as int);
    let k1 = (x / n1) as int - (y / n1) as int;
    let k2 = (x / n2) as int - (y / n2) as int;
    assert(d == n1 * k1) by (nonlinear_arith)
        requires
            x == n1 * (x / n1) + x % n1,
            y == n1 * (y / n1) + y % n1,
            x % n1 == y % n1,
            d == x - y,
            k1 == (x / n1) as int - (y / n1) as int,
    ;
    assert(d == n2 * k2) by (nonlinear_arith)
        requires
            x == n2 * (x / n2) + x % n2,
            y == n2 * (y / n2) + y % n2,
            x % n2 == y % n2,
            d == x - y,
            k2 == (x / n2) as int - (y / n2) as int,
    ;
    let k = k2 * u + k1 * v;
    assert(d == (n1 * n2) * k) by (nonlinear_arith)
        requires
            n1 * u + n2 * v == 1,
            d == n1 * k1,
            d == n2 * k2,
            k == k2 * u + k1 * v,
    ;
    let nn = (n1 * n2) as int;
    assert(nn >= 1) by (nonlinear_arith)
        requires
            n1 >= 1,
            n2 >= 1,
            nn == n1 * n2,
    ;
    assert(d == nn * k);
    assert(x < nn && y < nn);
    if k >= 1 {
        assert(nn * k >= nn) by (nonlinear_arith)
            requires
                k >= 1,
                nn >= 1,
        ;
    } else if k <= -1 {
        assert(nn * k <= -nn) by (nonlinear_arith)
            requires
                k <= -1,
                nn >= 1,
        ;
    } else {
        assert(k == 0);
        lemma_mul_basics(nn);
    }
}

/// `c < n1 * n2` is 1 modulo `n1` and 0 modulo `n2`.
pub open spec fn is_crt_coefficient(c: nat, n1: nat, n2: nat) -> bool {
    c < n1 * n2 && c % n1 == 1nat % n1 && c % n2 == 0
}

/// The CRT coefficient `c < n1 * n2` that is 1 modulo `n1` and 0 modulo `n2`.
pub open spec fn crt_coefficient(n1: nat, n2: nat) -> nat {
    choose|c: nat| #[trigger] is_crt_coefficient(c, n1, n2)
}

/// The CRT coefficient exists for coprime `n1, n2 >= 1`, and is the only
/// number with its defining properties.
pub proof fn lemma_crt_coefficient_exists(n1: nat, n2: nat, c: nat)
    requires
        n1 >= 1,
        n2 >= 1,
        gcd_spec(n1, n2) == 1,
    ensures
        crt_coefficient(n1, n2) < n1 * n2,
        crt_coefficient(n1, n2) % n1 == 1nat % n1,
        crt_coefficient(n1, n2) % n2 == 0,
        c < n1 * n2 && c % n1 == 1nat % n1 && c % n2 == 0 ==> c == crt_coefficient(n1, n2),
{
    lemma_bezout(n1, n2);
    let (u, v) = bezout(n1, n2);
    let w = ((v % (n1 as int)) * n2) as nat;
    lemma_crt_coefficient(n1 as int, n2 as int, u, v);
    lemma_mod_bound(v, n1 as int);
    assert(w < n1 * n2) by (nonlinear_arith)
        requires
            0 <= v % (n1 as int) < n1,
            n2 >= 1,
            w == (v % (n1 as int)) * n2,
    ;
    lemma_mod_multiples_basic(v % (n1 as int), n2 as int);
    assert(w % n1 == 1nat % n1);
    assert(w % n2 == 0);
    assert(is_crt_coefficient(w, n1, n2));
    let cc = crt_coefficient(n1, n2);
    assert(cc < n1 * n2 && cc % n1 == 1nat % n1 && cc % n2 == 0);
    if c < n1 * n2 && c % n1 == 1nat % n1 && c % n2 == 0 {
        lemma_crt_unique(n1, n2, c, cc);
    }
}

/// The index with residues `m1` modulo `n1` and `m2` modulo `n2`, as the
/// Good–Thomas map computes it from the CRT coefficients.
pub open spec fn crt_index(m1: nat, m2: nat, n1: nat, n2: nat) -> nat {
    (m1 * crt_coefficient(n1, n2) + m2 * crt_coefficient(n2, n1)) % (n1 * n2)
}

/// `crt_index(m1, m2)` lies below `n1 * n2` and has residues `m1` and `m2`.
pub proof fn lemma_crt_index(m1: nat, m2: nat, n1: nat, n2: nat)
    requires
        n1 >= 1,
        n2 >= 1,
        gcd_spec(n1, n2) == 1,
    ensures
        crt_index(m1, m2, n1, n2) < n1 * n2,
        crt_index(m1, m2, n1, n2) % n1 == m1 % n1,
        crt_index(m1, m2, n1, n2) % n2 == m2 % n2,
{
    let n = n1 * n2;
    assert(n >= 1) by (nonlinear_arith)
        requires
            n1 >= 1,
            n2 >= 1,
            n == n1 * n2,
    ;
    assert(gcd_spec(n2, n1) == 1) by {
        lemma_gcd_commutative(n1, n2);
    }
    lemma_crt_coefficient_exists(n1, n2, 0);
    lemma_crt_coefficient_exists(n2, n1, 0);
    let c1 = crt_coefficient(n1, n2);
    let c2 = crt_coefficient(n2, n1);
    assert(n2 * n1 == n) by {
        lemma_mul_is_commutative(n1 as int, n2 as int);
    }
    let z = m1 * c1 + m2 * c2;
    lemma_mod_bound(z as int, n as int);
    // reducing modulo n keeps the residues modulo n1 and n2
    lemma_mod_mod(z as int, n1 as int, n2 as int);
    lemma_mul_is_commutative(n1 as int, n2 as int);
    lemma_mod_mod(z as int, n2 as int, n1 as int);
    lemma_linear_residue(m1, c1, m2, c2, n1);
    lemma_linear_residue(m2, c2, m1, c1, n2);
}

/// `(a * c + b * d) % k == a % k` when `c ≡ 1` and `d ≡ 0` modulo `k`.
proof fn lemma_linear_residue(a: nat, c: nat, b: nat, d: nat, k: nat)
    requires
        k >= 1,
        c % k == 1nat % k,
        d % k == 0,
    ensures
        (a * c + b * d) % k == a % k,
{
    lemma_add_mod_noop((a * c) as int, (b * d) as int, k as int);
    lemma_mul_mod_noop_right(a as int, c as int, k as int);
    lemma_mul_mod_noop_right(b as int, d as int, k as int);
    lemma_mul_mod_noop_right(a as int, 1, k as int);
    lemma_mul_basics(b as int);
    lemma_mul_basics(a as int);
    lemma_small_mod(0, k);
    lemma_mod_twice(a as int, k as int);
}

/// `gcd` is symmetric.
pub proof fn lemma_gcd_commutative(a: nat, b: nat)
    ensures
        gcd_spec(a, b) == gcd_spec(b, a),
{
    lemma_gcd_divides(a, b);
    lemma_gcd_divides(b, a);
    let g = gcd_spec(a, b);
    let h = gcd_spec(b, a);
    if g > 0 && h > 0 {
        lemma_common_divisor_divides_gcd(b, a, g);
        lemma_common_divisor_divides_gcd(a, b, h);
        crate::primes::lemma_mod_is_zero_ge(h, g);
        crate::primes::lemma_mod_is_zero_ge(g, h);
    } else if g == 0 {
        assert(a == 0 && b == 0);
    } else {
        assert(a == 0 && b == 0);
    }
}

/// A number below `n1 * n2` is recovered from its residues modulo `n1` and
/// `n2` by the CRT index map.
pub proof fn lemma_crt_index_roundtrip(m: nat, n1: nat, n2: nat)
    requires
        n1 >= 1,
        n2 >= 1,
        gcd_spec(n1, n2) == 1,
        m < n1 * n2,
    ensures
        crt_index(m % n1, m % n2, n1, n2) == m,
{
    lemma_crt_index(m % n1, m % n2, n1, n2);
    lemma_mod_twice(m as int, n1 as int);
    lemma_mod_twice(m as int, n2 as int);
    lemma_crt_unique(n1, n2, crt_index(m % n1, m % n2, n1, n2), m);
}

} // verus!
