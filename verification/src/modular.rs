//! Modular exponentiation facts.
use vstd::arithmetic::div_mod::*;
use vstd::arithmetic::mul::*;
use vstd::arithmetic::power::*;
use vstd::prelude::*;

verus! {

/// What `mod_pow(base, exp, m)` computes: `base^exp mod m`, except that an
/// empty product is reported as 1 even for `m == 1`.
pub open spec fn mod_pow_spec(base: nat, exp: nat, m: nat) -> nat {
    if exp == 0 {
        1
    } else {
        (pow(base as int, exp) % (m as int)) as nat
    }
}

/// `pow` of naturals is a natural.
pub proof fn lemma_pow_nonneg(b: int, e: nat)
    requires
        b >= 0,
    ensures
        pow(b, e) >= 0,
    decreases e,
{
    reveal(pow);
    if e > 0 {
        lemma_pow_nonneg(b, (e - 1) as nat);
        lemma_mul_nonnegative(b, pow(b, (e - 1) as nat));
    }
}

/// One step of square-and-multiply keeps `r * b^e (mod m)` unchanged.
pub proof fn lemma_square_multiply_step(r: int, b: int, e: nat, m: int)
    requires
        m > 0,
    ensures
        (r * pow(b, e)) % m == (((if e % 2 == 1 { (r * b) % m } else { r }))
            * pow((b * b) % m, e / 2)) % m,
{
    let h = e / 2;
    let bit = e % 2;
    assert(e == 2 * h + bit);
    lemma_pow_adds(b, 2 * h, bit);
    lemma_pow_multiplies(b, 2, h);
    lemma_square_is_pow2(b);
    // pow((b*b) % m, h) ≡ pow(b*b, h)
    lemma_pow_mod_noop(b * b, h, m);
    let big = pow(b * b, h);
    if bit == 1 {
        lemma_pow1(b);
        // r * (big * b) == (r * b) * big
        assert(r * (big * b) == (r * b) * big) by {
            lemma_mul_is_associative(r, big, b);
            lemma_mul_is_commutative(big, b);
            lemma_mul_is_associative(r, b, big);
        }
        lemma_mul_mod_noop_general(r * b, big, m);
        lemma_mul_mod_noop_general((r * b) % m, pow((b * b) % m, h), m);
        lemma_mod_twice(r * b, m);
    } else {
        lemma_pow0(b);
        assert(pow(b, e) == big);
        lemma_mul_mod_noop_general(r, big, m);
        lemma_mul_mod_noop_general(r, pow((b * b) % m, h), m);
    }
}

} // verus!
