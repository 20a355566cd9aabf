//! Good–Thomas prime factor algorithm index maps (Chinese remainder theorem).
use vstd::prelude::*;
use crate::number_theory::{
    gcd_spec, lemma_crt_coefficient, crt_coefficient, lemma_crt_coefficient_exists, crt_index,
    lemma_crt_index, lemma_gcd_commutative, lemma_crt_index_roundtrip,
};
use vstd::arithmetic::div_mod::*;

verus! {

/// Greatest common divisor by Euclid's algorithm.
pub fn gcd(a: usize, b: usize) -> (g: usize)
    ensures
        g == gcd_spec(a as nat, b as nat),
{
    let ghost a0 = a;
    let ghost b0 = b;
    let mut a = a;
    let mut b = b;
    while b != 0
        invariant
            gcd_spec(a as nat, b as nat) == gcd_spec(a0 as nat, b0 as nat),
        decreases b,
    {
        let t = b;
        b = a % b;
        a = t;
    }
    a
}

/// Absolute value.
pub open spec fn abs(x: int) -> int {
    if x < 0 {
        -x
    } else {
        x
    }
}

/// Extended Euclidean algorithm: returns (g, x, y) such that a*x + b*y = g = gcd(a,b).
pub(crate) fn extended_gcd(a: usize, b: usize) -> (res: (usize, i64, i64))
    requires
        a <= i64::MAX,
        b <= i64::MAX,
    ensures
        res.0 == gcd_spec(a as nat, b as nat),
        a * res.1 + b * res.2 == res.0,
        abs(res.1 as int) <= b || abs(res.1 as int) <= 1,
        abs(res.2 as int) <= a || abs(res.2 as int) <= 1,
{
    let (mut old_r, mut r) = (a as i64, b as i64);
    let (mut old_s, mut s) = (1i64, 0i64);
    let (mut old_t, mut t) = (0i64, 1i64);

    while r != 0
        invariant
            0 <= old_r,
            0 <= r,
            gcd_spec(old_r as nat, r as nat) == gcd_spec(a as nat, b as nat),
            a * old_s + b * old_t == old_r,
            a * s + b * t == r,
            old_r * abs(s as int) + r * abs(old_s as int) == b,
            old_r * abs(t as int) + r * abs(old_t as int) == a,
            s * old_s <= 0,
            t * old_t <= 0,
            abs(old_s as int) <= b || abs(old_s as int) <= 1,
            abs(old_t as int) <= a || abs(old_t as int) <= 1,
            old_r == 0 ==> s == 0 && t == 1,
            old_r <= a || old_r <= b,
            r <= a || r <= b,
            a <= i64::MAX,
            b <= i64::MAX,
        decreases r,
    {
        let q = old_r / r;
        proof {
            lemma_fundamental_div_mod(old_r as int, r as int);
            lemma_mod_bound(old_r as int, r as int);
            assert(q * r <= old_r) by (nonlinear_arith)
                requires
                    old_r == r * q + old_r % r,
                    old_r % r >= 0,
            ;
            assert(q >= 0) by (nonlinear_arith)
                requires
                    old_r >= 0,
                    r > 0,
                    q == old_r / r,
            ;
            lemma_extended_gcd_step(
                a as int, b as int, old_r as int, r as int, q as int,
                old_s as int, s as int, old_t as int, t as int,
            );
        }
        let tmp_r = old_r - q * r;
        let tmp_s = old_s - q * s;
        let tmp_t = old_t - q * t;
        old_r = r;
        r = tmp_r;
        old_s = s;
        s = tmp_s;
        old_t = t;
        t = tmp_t;
    }

    (old_r as usize, old_s, old_t)
}

/// One step of the extended Euclidean algorithm keeps its invariants and its
/// intermediate values within `[-max(a, b), max(a, b)]`.
proof fn lemma_extended_gcd_step(
    a: int,
    b: int,
    old_r: int,
    r: int,
    q: int,
    old_s: int,
    s: int,
    old_t: int,
    t: int,
)
    requires
        a >= 0,
        b >= 0,
        old_r >= 0,
        r > 0,
        q >= 0,
        old_r == r * q + old_r % r,
        0 <= old_r % r < r,
        a * old_s + b * old_t == old_r,
        a * s + b * t == r,
        old_r * abs(s) + r * abs(old_s) == b,
        old_r * abs(t) + r * abs(old_t) == a,
        s * old_s <= 0,
        t * old_t <= 0,
        old_r == 0 ==> s == 0 && t == 1,
    ensures
        abs(q * s) <= b,
        abs(q * t) <= a,
        abs(old_s - q * s) <= b,
        abs(old_t - q * t) <= a,
        q * r <= old_r,
        a * s + b * t == r,
        a * (old_s - q * s) + b * (old_t - q * t) == old_r - q * r,
        r * abs(old_s - q * s) + (old_r - q * r) * abs(s) == b,
        r * abs(old_t - q * t) + (old_r - q * r) * abs(t) == a,
        (old_s - q * s) * s <= 0,
        (old_t - q * t) * t <= 0,
        abs(s) <= b || abs(s) <= 1,
        abs(t) <= a || abs(t) <= 1,
        r == 0 ==> old_s - q * s == 0,
{
    let ns = old_s - q * s;
    let nt = old_t - q * t;
    let nr = old_r - q * r;
    assert(abs(ns) == abs(old_s) + q * abs(s)) by (nonlinear_arith)
        requires
            s * old_s <= 0,
            q >= 0,
            ns == old_s - q * s,
    ;
    assert(abs(nt) == abs(old_t) + q * abs(t)) by (nonlinear_arith)
        requires
            t * old_t <= 0,
            q >= 0,
            nt == old_t - q * t,
    ;
    assert(r * abs(ns) + nr * abs(s) == b) by (nonlinear_arith)
        requires
            abs(ns) == abs(old_s) + q * abs(s),
            nr == old_r - q * r,
            old_r * abs(s) + r * abs(old_s) == b,
    ;
    assert(r * abs(nt) + nr * abs(t) == a) by (nonlinear_arith)
        requires
            abs(nt) == abs(old_t) + q * abs(t),
            nr == old_r - q * r,
            old_r * abs(t) + r * abs(old_t) == a,
    ;
    assert(nr >= 0) by (nonlinear_arith)
        requires
            old_r == r * q + old_r % r,
            0 <= old_r % r,
            nr == old_r - q * r,
    ;
    assert(abs(ns) <= b) by (nonlinear_arith)
        requires
            r * abs(ns) + nr * abs(s) == b,
            r >= 1,
            nr >= 0,
            abs(ns) >= 0,
            abs(s) >= 0,
    ;
    assert(abs(nt) <= a) by (nonlinear_arith)
        requires
            r * abs(nt) + nr * abs(t) == a,
            r >= 1,
            nr >= 0,
            abs(nt) >= 0,
            abs(t) >= 0,
    ;
    assert(abs(q * s) == q * abs(s)) by (nonlinear_arith)
        requires
            q >= 0,
    ;
    assert(abs(q * t) == q * abs(t)) by (nonlinear_arith)
        requires
            q >= 0,
    ;
    assert(a * ns + b * nt == nr) by (nonlinear_arith)
        requires
            a * old_s + b * old_t == old_r,
            a * s + b * t == r,
            ns == old_s - q * s,
            nt == old_t - q * t,
            nr == old_r - q * r,
    ;
    assert(ns * s <= 0) by (nonlinear_arith)
        requires
            s * old_s <= 0,
            q >= 0,
            ns == old_s - q * s,
    ;
    assert(nt * t <= 0) by (nonlinear_arith)
        requires
            t * old_t <= 0,
            q >= 0,
            nt == old_t - q * t,
    ;
    // |s| <= b: old_r * |s| <= b when old_r >= 1; s == 0 otherwise... use the
    // identity one step later: r * |ns| + nr * |s| == b with nr possibly 0.
    if old_r >= 1 {
        assert(abs(s) <= b) by (nonlinear_arith)
            requires
                old_r * abs(s) + r * abs(old_s) == b,
                old_r >= 1,
                r >= 0,
                abs(old_s) >= 0,
                abs(s) >= 0,
        ;
        assert(abs(t) <= a) by (nonlinear_arith)
            requires
                old_r * abs(t) + r * abs(old_t) == a,
                old_r >= 1,
                r >= 0,
                abs(old_t) >= 0,
                abs(t) >= 0,
        ;
    }
}

/// Reduce `y` into `[0, n)` with Rust's truncating remainder, as
/// `(y % n + n) % n`.
fn euclid_mod(y: i64, n: i64) -> (r: i64)
    requires
        n > 0,
        y % n + n <= i64::MAX,
    ensures
        0 <= r < n,
        r == (y as int) % (n as int),
{
    let t = y % n;
    proof {
        assert(-n < t < n);
        if y >= 0 {
            assert(t == (y as int) % (n as int));
            lemma_fundamental_div_mod_converse_mod((t + n) as int, n as int, 1, t as int);
        } else {
            let m = (-y) as int;
            assert(t == -(m % (n as int)));
            lemma_fundamental_div_mod(m, n as int);
            let q = m / (n as int);
            let rm = m % (n as int);
            if rm == 0 {
                lemma_fundamental_div_mod_converse_mod((t + n) as int, n as int, 1, 0);
                assert(y as int == (-q) * (n as int) + 0) by (nonlinear_arith)
                    requires
                        m == (n as int) * q + rm,
                        rm == 0,
                        y as int == -m,
                ;
                lemma_fundamental_div_mod_converse_mod(y as int, n as int, -q, 0);
            } else {
                lemma_fundamental_div_mod_converse_mod((t + n) as int, n as int, 0, (t + n) as int);
                assert(y as int == (-q - 1) * (n as int) + ((n as int) - rm)) by (nonlinear_arith)
                    requires
                        m == (n as int) * q + rm,
                        y as int == -m,
                ;
                lemma_fundamental_div_mod_converse_mod(y as int, n as int, -q - 1, (n as int) - rm);
            }
        }
    }
    (t + n) % n
}

/// The integer `y` that `extended_gcd` pairs with `x` keeps `y % n + n` within
/// `i64`: only for `n > i64::MAX / 2` could it overflow, and then the partner
/// length is 1 and `y` is 1 or `1 - n`.
proof fn lemma_shift_fits(n: int, m: int, x: int, y: int)
    requires
        1 <= n < i64::MAX,
        1 <= m,
        n * m <= i64::MAX,
        n * x + m * y == 1,
        abs(x) <= m || abs(x) <= 1,
        abs(y) <= n || abs(y) <= 1,
        i64::MIN <= y <= i64::MAX,
    ensures
        (y as i64) % (n as i64) + n <= i64::MAX,
{
    let t = (y as i64) % (n as i64);
    lemma_mod_bound(y, n);
    if n > i64::MAX / 2 {
        if m >= 2 {
            assert(n * m >= 2 * n) by (nonlinear_arith)
                requires
                    m >= 2,
                    n >= 1,
            ;
        }
        assert(m == 1);
        assert(abs(x) <= 1);
        if x == -1 {
            assert(y == 1 + n);
        } else if x == 0 {
            assert(y == 1);
            lemma_small_mod(1, n as nat);
        } else {
            assert(x == 1);
            assert(y == 1 - n);
            lemma_fundamental_div_mod_converse_mod(y, n, -1, 1);
        }
    }
}

/// Precompute the CRT coefficients for n1, n2.
///
/// Returns (c1, c2) such that:
/// - c1 ≡ 1 (mod n1), c1 ≡ 0 (mod n2)
/// - c2 ≡ 0 (mod n1), c2 ≡ 1 (mod n2)
///
/// Then m = (m1 * c1 + m2 * c2) mod (n1 * n2)
pub fn crt_coefficients(n1: usize, n2: usize) -> (res: (usize, usize))
    requires
        n1 >= 1,
        n2 >= 1,
        gcd_spec(n1 as nat, n2 as nat) == 1,
        n1 < i64::MAX,
        n2 < i64::MAX,
        n1 * n2 <= i64::MAX,
        n1 * n2 <= usize::MAX,
    ensures
        res.0 < n1 * n2,
        res.0 % n1 == 1usize % n1,
        res.0 % n2 == 0,
        res.1 < n1 * n2,
        res.1 % n1 == 0,
        res.1 % n2 == 1usize % n2,
        res.0 == crt_coefficient(n1 as nat, n2 as nat),
        res.1 == crt_coefficient(n2 as nat, n1 as nat),
{
    let n = n1 * n2;
    let (_, x, y) = extended_gcd(n1, n2);
    proof {
        lemma_shift_fits(n1 as int, n2 as int, x as int, y as int);
        assert(n2 as int * n1 <= i64::MAX) by (nonlinear_arith)
            requires
                n1 as int * n2 <= i64::MAX,
        ;
        lemma_shift_fits(n2 as int, n1 as int, y as int, x as int);
    }

    // c1 ≡ 1 (mod n1), c1 ≡ 0 (mod n2)
    // c1 = y * n2 (since y*n2 ≡ 1 (mod n1) from extended_gcd)
    let y1 = euclid_mod(y, n1 as i64);
    proof {
        assert(y1 * n2 < n1 * n2) by (nonlinear_arith)
            requires
                0 <= y1 < n1,
                n2 >= 1,
        ;
    }
    let c1 = (y1 * n2 as i64) as usize % n;

    // c2 ≡ 0 (mod n1), c2 ≡ 1 (mod n2)
    // c2 = x * n1 (since x*n1 ≡ 1 (mod n2))
    let x2 = euclid_mod(x, n2 as i64);
    proof {
        assert(x2 * n1 < n1 * n2) by (nonlinear_arith)
            requires
                0 <= x2 < n2,
                n1 >= 1,
        ;
    }
    let c2 = (x2 * n1 as i64) as usize % n;

    proof {
        let p1 = (y1 * n2) as int;
        let p2 = (x2 * n1) as int;
        lemma_small_mod(p1 as nat, n as nat);
        lemma_small_mod(p2 as nat, n as nat);
        lemma_crt_coefficient(n1 as int, n2 as int, x as int, y as int);
        assert(n2 * y + n1 * x == 1) by (nonlinear_arith)
            requires
                n1 * x + n2 * y == 1,
        ;
        lemma_crt_coefficient(n2 as int, n1 as int, y as int, x as int);
        lemma_mod_multiples_basic(y1 as int, n2 as int);
        lemma_mod_multiples_basic(x2 as int, n1 as int);
        lemma_gcd_commutative(n1 as nat, n2 as nat);
        lemma_crt_coefficient_exists(n1 as nat, n2 as nat, c1 as nat);
        vstd::arithmetic::mul::lemma_mul_is_commutative(n1 as int, n2 as int);
        lemma_crt_coefficient_exists(n2 as nat, n1 as nat, c2 as nat);
    }
    (c1, c2)
}

/// The requirements under which the Good–Thomas index maps for `n1 * n2` are
/// computed without overflow: coprime positive factors whose product (and the
/// signed intermediate values of the extended Euclidean algorithm) fit.
pub open spec fn pfa_lengths_ok(n1: nat, n2: nat) -> bool {
    &&& n1 >= 1
    &&& n2 >= 1
    &&& gcd_spec(n1, n2) == 1
    &&& n1 < i64::MAX
    &&& n2 < i64::MAX
    &&& n1 * n2 <= i64::MAX
    &&& n1 * n2 <= usize::MAX
}

/// Map 1D index to 2D index using CRT: m → (m mod n1, m mod n2).
pub fn pfa_index_forward(m: usize, n1: usize, n2: usize) -> (res: (usize, usize))
    requires
        n1 > 0,
        n2 > 0,
    ensures
        res == (m % n1, m % n2),
{
    (m % n1, m % n2)
}

/// Map 2D index to 1D index: (m1, m2) → m using precomputed CRT coefficients.
pub fn pfa_index_inverse(m1: usize, m2: usize, n1: usize, n2: usize) -> (m: usize)
    requires
        pfa_lengths_ok(n1 as nat, n2 as nat),
        m1 * crt_coefficient(n1 as nat, n2 as nat) + m2 * crt_coefficient(n2 as nat, n1 as nat)
            <= usize::MAX,
    ensures
        m == crt_index(m1 as nat, m2 as nat, n1 as nat, n2 as nat),
        m < n1 * n2,
        m % n1 == m1 % n1,
        m % n2 == m2 % n2,
{
    let (c1, c2) = crt_coefficients(n1, n2);
    let n = n1 * n2;
    proof {
        lemma_crt_index(m1 as nat, m2 as nat, n1 as nat, n2 as nat);
        vstd::arithmetic::mul::lemma_mul_nonnegative(m1 as int, c1 as int);
        vstd::arithmetic::mul::lemma_mul_nonnegative(m2 as int, c2 as int);
    }
    (m1 * c1 + m2 * c2) % n
}

/// The twiddle multipliers `(c1 / n2, c2 / n1)` of the prime factor algorithm,
/// from the CRT coefficients `(c1, c2)`: `c1 / n2` is the inverse of `n2`
/// modulo `n1`, and `c2 / n1` that of `n1` modulo `n2`.
pub fn pfa_twiddle_multipliers(n1: usize, n2: usize) -> (r: (usize, usize))
    requires
        pfa_lengths_ok(n1 as nat, n2 as nat),
    ensures
        r.0 == crt_coefficient(n1 as nat, n2 as nat) / (n2 as nat),
        r.1 == crt_coefficient(n2 as nat, n1 as nat) / (n1 as nat),
        r.0 < n1,
        r.1 < n2,
        (r.0 * n2) % (n1 as int) == 1int % (n1 as int),
        (r.1 * n1) % (n2 as int) == 1int % (n2 as int),
{
    let (c1, c2) = crt_coefficients(n1, n2);
    proof {
        lemma_multiplier(c1 as nat, n1 as nat, n2 as nat);
        vstd::arithmetic::mul::lemma_mul_is_commutative(n1 as int, n2 as int);
        lemma_multiplier(c2 as nat, n2 as nat, n1 as nat);
    }
    (c1 / n2, c2 / n1)
}

/// A multiple `c < a * b` of `b` that is 1 modulo `a` is `b` times an inverse of
/// `b` modulo `a` below `a`.
proof fn lemma_multiplier(c: nat, a: nat, b: nat)
    requires
        a >= 1,
        b >= 1,
        c < a * b,
        c % b == 0,
        c % a == 1nat % a,
    ensures
        c / b < a,
        (((c / b) * b) as int) % (a as int) == 1int % (a as int),
{
    lemma_fundamental_div_mod(c as int, b as int);
    assert((c / b) * b == c) by (nonlinear_arith)
        requires
            c == b * (c / b) + c % b,
            c % b == 0,
    ;
    vstd::arithmetic::mul::lemma_mul_is_commutative(a as int, b as int);
    lemma_multiply_divide_lt(c as int, b as int, a as int);
}

/// The exponent `((c * k mod n) * m) mod n` of a twiddle factor of the prime
/// factor algorithm, with the products taken modulo `2^usize::BITS` as the
/// wrapping multiplications take them.
pub fn pfa_twiddle_exponent(c: usize, k: usize, m: usize, n: usize) -> (r: usize)
    requires
        n > 0,
    ensures
        r == (vstd::wrapping::usize_specs::wrapping_mul(
            vstd::wrapping::usize_specs::wrapping_mul(c, k) % n,
            m,
        ) % n),
        c < n && k < n && m < n && n * n <= usize::MAX ==> r as int == (c * k * m) % (n as int),
{
    let ck = c.wrapping_mul(k) % n;
    let r = ck.wrapping_mul(m) % n;
    proof {
        if c < n && k < n && m < n && n * n <= usize::MAX {
            lemma_exponent_exact(c, k, m, n);
        }
    }
    r
}

/// Without wrap-around the twiddle exponent is `c * k * m mod n`.
proof fn lemma_exponent_exact(c: usize, k: usize, m: usize, n: usize)
    requires
        n > 0,
        c < n,
        k < n,
        m < n,
        n * n <= usize::MAX,
    ensures
        vstd::wrapping::usize_specs::wrapping_mul(
            vstd::wrapping::usize_specs::wrapping_mul(c, k) % n,
            m,
        ) % n == ((c * k * m) as int) % (n as int),
{
    let range = (usize::MAX - usize::MIN + 1) as nat;
    assert(c * k < n * n) by (nonlinear_arith)
        requires
            c < n,
            k < n,
    ;
    lemma_small_mod((c * k) as nat, range);
    assert(vstd::wrapping::usize_specs::wrapping_mul(c, k) == c * k);
    let ck = ((c * k) % (n as int)) as usize;
    lemma_mod_bound((c * k) as int, n as int);
    assert(ck * m < n * n) by (nonlinear_arith)
        requires
            ck < n,
            m < n,
    ;
    lemma_small_mod((ck * m) as nat, range);
    assert(vstd::wrapping::usize_specs::wrapping_mul(ck, m) == ck * m);
    vstd::arithmetic::div_mod::lemma_mul_mod_noop_left((c * k) as int, m as int, n as int);
}

/// The Good–Thomas index maps for `n1 * n2` can be evaluated on every pair of
/// residues `m1 < n1`, `m2 < n2` without overflow.
pub open spec fn pfa_permutation_fits(n1: nat, n2: nat) -> bool {
    &&& pfa_lengths_ok(n1, n2)
    &&& (n1 - 1) * crt_coefficient(n1, n2) + (n2 - 1) * crt_coefficient(n2, n1) <= usize::MAX
}

/// The 2D (row-major `n1 x n2`) layout of a 1D sequence: position
/// `m1 * n2 + m2` holds the sample at `crt_index(m1, m2)`.
pub open spec fn pfa_gather<T>(s: Seq<T>, n1: nat, n2: nat) -> Seq<T> {
    Seq::new(n1 * n2, |i: int| s[crt_index((i / n2 as int) as nat, (i % n2 as int) as nat, n1, n2) as int])
}

/// The 1D layout of a 2D (row-major `n1 x n2`) sequence: position `m` holds the
/// entry at row `m mod n1`, column `m mod n2`.
pub open spec fn pfa_scatter<T>(s: Seq<T>, n1: nat, n2: nat) -> Seq<T> {
    Seq::new(n1 * n2, |m: int| s[(m % n1 as int) * n2 + m % n2 as int])
}

/// Each residue pair `m1 < n1`, `m2 < n2` stays within the overflow bound.
proof fn lemma_residue_pair_fits(m1: usize, m2: usize, n1: usize, n2: usize)
    requires
        pfa_permutation_fits(n1 as nat, n2 as nat),
        m1 < n1,
        m2 < n2,
    ensures
        m1 * crt_coefficient(n1 as nat, n2 as nat) + m2 * crt_coefficient(n2 as nat, n1 as nat)
            <= usize::MAX,
{
    let c1 = crt_coefficient(n1 as nat, n2 as nat);
    let c2 = crt_coefficient(n2 as nat, n1 as nat);
    assert(m1 * c1 <= (n1 - 1) * c1) by (nonlinear_arith)
        requires
            m1 <= n1 - 1,
            c1 >= 0,
    ;
    assert(m2 * c2 <= (n2 - 1) * c2) by (nonlinear_arith)
        requires
            m2 <= n2 - 1,
            c2 >= 0,
    ;
}

/// Row-major position `m1 * n2 + m2` of the `n1 x n2` layout.
proof fn lemma_row_major(m1: int, m2: int, n1: int, n2: int)
    requires
        0 <= m1 < n1,
        0 <= m2 < n2,
    ensures
        0 <= m1 * n2 + m2 < n1 * n2,
        (m1 * n2 + m2) / n2 == m1,
        (m1 * n2 + m2) % n2 == m2,
{
    assert(0 <= m1 * n2 + m2 < n1 * n2) by (nonlinear_arith)
        requires
            0 <= m1 < n1,
            0 <= m2 < n2,
    ;
    lemma_fundamental_div_mod_converse(m1 * n2 + m2, n2, m1, m2);
}

/// In-place Good-Thomas PFA forward transform.
///
/// Rearranges data from 1D layout to 2D layout (row-major):
/// data[m1 * n2 + m2] = input[pfa_index_inverse(m1, m2, n1, n2)]
pub fn pfa_forward<T: Copy>(data: &mut [T], n1: usize, n2: usize)
    requires
        old(data)@.len() == n1 * n2,
        pfa_permutation_fits(n1 as nat, n2 as nat),
    ensures
        final(data)@ == pfa_gather(old(data)@, n1 as nat, n2 as nat),
{
    let n = n1 * n2;
    let mut temp = vstd::slice::slice_to_vec(data);

    let mut m1 = 0usize;
    while m1 < n1
        invariant
            0 <= m1 <= n1,
            data@.len() == n,
            n == n1 * n2,
            temp@.len() == n,
            pfa_permutation_fits(n1 as nat, n2 as nat),
            forall|i: int| 0 <= i < m1 * n2 ==> #[trigger] temp@[i] == data@[crt_index(
                (i / n2 as int) as nat,
                (i % n2 as int) as nat,
                n1 as nat,
                n2 as nat,
            ) as int],
        decreases n1 - m1,
    {
        let mut m2 = 0usize;
        while m2 < n2
            invariant
                0 <= m1 < n1,
                0 <= m2 <= n2,
                data@.len() == n,
                n == n1 * n2,
                temp@.len() == n,
                pfa_permutation_fits(n1 as nat, n2 as nat),
                forall|i: int| 0 <= i < m1 * n2 + m2 ==> #[trigger] temp@[i] == data@[crt_index(
                    (i / n2 as int) as nat,
                    (i % n2 as int) as nat,
                    n1 as nat,
                    n2 as nat,
                ) as int],
            decreases n2 - m2,
        {
            proof {
                lemma_residue_pair_fits(m1, m2, n1, n2);
                lemma_row_major(m1 as int, m2 as int, n1 as int, n2 as int);
            }
            let m = pfa_index_inverse(m1, m2, n1, n2);
            let k = m1 * n2 + m2;
            temp.set(k, data[m]);
            m2 += 1;
        }
        proof {
            assert(m1 * n2 + n2 == (m1 + 1) * n2) by (nonlinear_arith);
        }
        m1 += 1;
    }

    let mut i = 0usize;
    while i < n
        invariant
            0 <= i <= n,
            n == n1 * n2,
            temp@.len() == n,
            data@.len() == n,
            forall|j: int| 0 <= j < i ==> #[trigger] data@[j] == temp@[j],
        decreases n - i,
    {
        data[i] = temp[i];
        i += 1;
    }
    proof {
        assert(data@ =~= temp@);
        assert(temp@ =~= pfa_gather(old(data)@, n1 as nat, n2 as nat));
    }
}

/// The residue pair of `m` comes before `(m1, m2)` in row-major order.
pub open spec fn residues_before(m: nat, m1: nat, m2: nat, n1: nat, n2: nat) -> bool {
    m % n1 < m1 || (m % n1 == m1 && m % n2 < m2)
}

/// In-place Good-Thomas PFA inverse transform.
///
/// Rearranges data from 2D layout back to 1D layout:
/// data[pfa_index_inverse(m1, m2, n1, n2)] = temp[m1 * n2 + m2]
pub fn pfa_inverse<T: Copy>(data: &mut [T], n1: usize, n2: usize)
    requires
        old(data)@.len() == n1 * n2,
        pfa_permutation_fits(n1 as nat, n2 as nat),
    ensures
        final(data)@ == pfa_scatter(old(data)@, n1 as nat, n2 as nat),
{
    let n = n1 * n2;
    let mut temp = vstd::slice::slice_to_vec(data);

    let mut m1 = 0usize;
    while m1 < n1
        invariant
            0 <= m1 <= n1,
            data@.len() == n,
            n == n1 * n2,
            temp@.len() == n,
            pfa_permutation_fits(n1 as nat, n2 as nat),
            forall|m: int|
                0 <= m < n && residues_before(m as nat, m1 as nat, 0, n1 as nat, n2 as nat)
                    ==> #[trigger] temp@[m] == data@[(m % n1 as int) * n2 + m % n2 as int],
        decreases n1 - m1,
    {
        let mut m2 = 0usize;
        while m2 < n2
            invariant
                0 <= m1 < n1,
                0 <= m2 <= n2,
                data@.len() == n,
                n == n1 * n2,
                temp@.len() == n,
                pfa_permutation_fits(n1 as nat, n2 as nat),
                forall|m: int|
                    0 <= m < n && residues_before(m as nat, m1 as nat, m2 as nat, n1 as nat, n2 as nat)
                        ==> #[trigger] temp@[m] == data@[(m % n1 as int) * n2 + m % n2 as int],
            decreases n2 - m2,
        {
            proof {
                lemma_residue_pair_fits(m1, m2, n1, n2);
                lemma_row_major(m1 as int, m2 as int, n1 as int, n2 as int);
            }
            let m = pfa_index_inverse(m1, m2, n1, n2);
            let k = m1 * n2 + m2;
            proof {
                vstd::arithmetic::div_mod::lemma_small_mod(m1 as nat, n1 as nat);
                vstd::arithmetic::div_mod::lemma_small_mod(m2 as nat, n2 as nat);
            }
            let ghost before = temp@;
            temp.set(m, data[k]);
            proof {
                assert forall|mm: int|
                    0 <= mm < n && residues_before(mm as nat, m1 as nat, (m2 + 1) as nat, n1 as nat, n2 as nat)
                    implies #[trigger] temp@[mm] == data@[(mm % n1 as int) * n2 + mm % n2 as int] by {
                    if mm != m {
                        if !residues_before(mm as nat, m1 as nat, m2 as nat, n1 as nat, n2 as nat) {
                            crate::number_theory::lemma_crt_unique(n1 as nat, n2 as nat, mm as nat, m as nat);
                        }
                        assert(temp@[mm] == before[mm]);
                    }
                }
            }
            m2 += 1;
        }
        m1 += 1;
    }
    proof {
        assert forall|m: int| 0 <= m < n implies #[trigger] temp@[m] == data@[(m % n1 as int) * n2 + m % n2 as int] by {
            lemma_mod_bound(m, n1 as int);
            assert(residues_before(m as nat, n1 as nat, 0, n1 as nat, n2 as nat));
        }
    }

    let mut i = 0usize;
    while i < n
        invariant
            0 <= i <= n,
            n == n1 * n2,
            temp@.len() == n,
            data@.len() == n,
            forall|j: int| 0 <= j < i ==> #[trigger] data@[j] == temp@[j],
        decreases n - i,
    {
        data[i] = temp[i];
        i += 1;
    }
    proof {
        assert(data@ =~= temp@);
        assert(temp@ =~= pfa_scatter(old(data)@, n1 as nat, n2 as nat));
    }
}

/// The CRT index maps are inverse bijections between `[0, n1 * n2)` and the
/// residue pairs `[0, n1) x [0, n2)`: mapping an index to its residues and back
/// gives the index, and mapping residues to an index and back gives the
/// residues.
pub proof fn lemma_pfa_index_roundtrip(m: nat, m1: nat, m2: nat, n1: nat, n2: nat)
    requires
        n1 >= 1,
        n2 >= 1,
        gcd_spec(n1, n2) == 1,
    ensures
        m < n1 * n2 ==> crt_index(m % n1, m % n2, n1, n2) == m,
        m1 < n1 && m2 < n2 ==> crt_index(m1, m2, n1, n2) % n1 == m1 && crt_index(m1, m2, n1, n2) % n2
            == m2,
{
    if m < n1 * n2 {
        lemma_crt_index_roundtrip(m, n1, n2);
    }
    lemma_crt_index(m1, m2, n1, n2);
    if m1 < n1 && m2 < n2 {
        lemma_small_mod(m1, n1);
        lemma_small_mod(m2, n2);
    }
}

/// The 1D-to-2D and 2D-to-1D rearrangements undo each other, in both orders.
pub proof fn lemma_pfa_permutation_roundtrip<T>(s: Seq<T>, n1: nat, n2: nat)
    requires
        n1 >= 1,
        n2 >= 1,
        gcd_spec(n1, n2) == 1,
        s.len() == n1 * n2,
    ensures
        pfa_scatter(pfa_gather(s, n1, n2), n1, n2) == s,
        pfa_gather(pfa_scatter(s, n1, n2), n1, n2) == s,
{
    let g = pfa_gather(s, n1, n2);
    let sc = pfa_scatter(s, n1, n2);
    assert forall|m: int| 0 <= m < n1 * n2 implies #[trigger] pfa_scatter(g, n1, n2)[m] == s[m] by {
        let a = m % n1 as int;
        let b = m % n2 as int;
        lemma_mod_bound(m, n1 as int);
        lemma_mod_bound(m, n2 as int);
        lemma_row_major(a, b, n1 as int, n2 as int);
        lemma_crt_index_roundtrip(m as nat, n1, n2);
    }
    assert(pfa_scatter(g, n1, n2) =~= s);
    assert forall|i: int| 0 <= i < n1 * n2 implies #[trigger] pfa_gather(sc, n1, n2)[i] == s[i] by {
        let a = i / n2 as int;
        let b = i % n2 as int;
        lemma_fundamental_div_mod(i, n2 as int);
        lemma_mod_bound(i, n2 as int);
        vstd::arithmetic::mul::lemma_mul_is_commutative(n1 as int, n2 as int);
        lemma_multiply_divide_lt(i, n2 as int, n1 as int);
        vstd::arithmetic::div_mod::lemma_div_pos_is_pos(i, n2 as int);
        let c = crt_index(a as nat, b as nat, n1, n2);
        lemma_crt_index(a as nat, b as nat, n1, n2);
        lemma_small_mod(a as nat, n1);
        lemma_small_mod(b as nat, n2);
        assert(i == a * n2 + b) by (nonlinear_arith)
            requires
                i == n2 * a + b,
        ;
    }
    assert(pfa_gather(sc, n1, n2) =~= s);
}

} // verus!
