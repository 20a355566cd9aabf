//! Rader's re-indexing of a prime-length transform.
//!
//! For a prime `p` with primitive root `g`, the samples at the nonzero indices
//! are read in the order `g^0, g^1, ..., g^(p-2)` (modulo `p`), which turns the
//! transform into a cyclic correlation of length `p - 1`; the results are
//! written back in the same order.
use vstd::prelude::*;
use crate::primes::{prime, pow_nat};
use crate::factorization::{primitive_root_test, lemma_primitive_root_generates};
use vstd::arithmetic::div_mod::*;
use vstd::arithmetic::mul::*;

verus! {

/// The Rader index sequence `g^m mod p` for `m < p - 1`.
pub open spec fn rader_indices(p: nat, g: nat) -> Seq<nat> {
    Seq::new((p - 1) as nat, |m: int| pow_nat(g, m as nat) % p)
}

/// The samples `s[g^m mod p]` for `m < p - 1`.
pub open spec fn rader_gathered<T>(s: Seq<T>, p: nat, g: nat) -> Seq<T> {
    Seq::new((p - 1) as nat, |m: int| s[rader_indices(p, g)[m] as int])
}

/// `base` after writing `vals[j]` at index `idx[j]` for `j < k`, in increasing
/// order of `j` (a later write to the same index wins).
pub open spec fn scattered_upto<T>(base: Seq<T>, idx: Seq<nat>, vals: Seq<T>, k: nat) -> Seq<T>
    decreases k,
{
    if k == 0 {
        base
    } else {
        scattered_upto(base, idx, vals, (k - 1) as nat).update(idx[k - 1] as int, vals[k - 1])
    }
}

/// `base` after writing `vals[j]` at `idx[j]` for every `j`, in order.
pub open spec fn scattered<T>(base: Seq<T>, idx: Seq<nat>, vals: Seq<T>) -> Seq<T> {
    scattered_upto(base, idx, vals, idx.len())
}

/// The cyclic reversal `r[m] = s[(n - m) mod n]` of a sequence of length `n`.
pub open spec fn cyclic_reversed<T>(s: Seq<T>) -> Seq<T> {
    Seq::new(s.len(), |m: int| s[(s.len() - m) % (s.len() as int)])
}

/// One step of the power sequence: `((g^m mod p) * g) mod p == g^(m+1) mod p`.
proof fn lemma_next_power(g: nat, m: nat, p: nat)
    requires
        p > 0,
    ensures
        ((pow_nat(g, m) % p) * g) % p == pow_nat(g, m + 1) % p,
{
    lemma_mul_mod_noop_left(pow_nat(g, m) as int, g as int, p as int);
    lemma_mul_is_commutative(pow_nat(g, m) as int, g as int);
    assert(pow_nat(g, m + 1) == g * pow_nat(g, m));
}

/// The index after `g^m mod p` fits: `(g^m mod p) * g` is at most `(p - 1) * g`.
proof fn lemma_power_step_fits(x: nat, g: nat, p: nat)
    requires
        x < p,
    ensures
        x * g <= (p - 1) * g,
{
    lemma_mul_inequality(x as int, (p - 1) as int, g as int);
}

/// Read the samples in Rader order: `a[m] = data[g^m mod p]` for `m < p - 1`.
pub fn rader_gather<T: Copy>(data: &[T], p: usize, g: usize) -> (a: Vec<T>)
    requires
        data@.len() == p,
        p >= 2,
        (p - 1) * g <= usize::MAX,
    ensures
        a@ == rader_gathered(data@, p as nat, g as nat),
{
    let mut a: Vec<T> = Vec::new();
    let mut pow_alpha: usize = 1;
    let mut m: usize = 0;
    proof {
        lemma_small_mod(1, p as nat);
    }
    while m < p - 1
        invariant
            0 <= m <= p - 1,
            data@.len() == p,
            p >= 2,
            (p - 1) * g <= usize::MAX,
            pow_alpha as nat == pow_nat(g as nat, m as nat) % (p as nat),
            a@.len() == m,
            forall|j: int| 0 <= j < m ==> #[trigger] a@[j] == rader_gathered(data@, p as nat, g as nat)[j],
        decreases p - 1 - m,
    {
        a.push(data[pow_alpha]);
        proof {
            lemma_power_step_fits(pow_alpha as nat, g as nat, p as nat);
            lemma_next_power(g as nat, m as nat, p as nat);
        }
        pow_alpha = (pow_alpha * g) % p;
        m += 1;
    }
    proof {
        assert(a@ =~= rader_gathered(data@, p as nat, g as nat));
    }
    a
}

/// Write the values back in Rader order: `out[g^m mod p] = values[m]` for
/// `m = 0, 1, ..., p - 2`, in that order.
pub fn rader_scatter<T: Copy>(out: &mut [T], values: &[T], p: usize, g: usize)
    requires
        old(out)@.len() == p,
        values@.len() == p - 1,
        p >= 2,
        (p - 1) * g <= usize::MAX,
    ensures
        final(out)@ == scattered(old(out)@, rader_indices(p as nat, g as nat), values@),
{
    let ghost base = out@;
    let ghost idx = rader_indices(p as nat, g as nat);
    let mut pow_alpha: usize = 1;
    let mut m: usize = 0;
    proof {
        lemma_small_mod(1, p as nat);
    }
    while m < p - 1
        invariant
            0 <= m <= p - 1,
            values@.len() == p - 1,
            p >= 2,
            (p - 1) * g <= usize::MAX,
            idx == rader_indices(p as nat, g as nat),
            base.len() == p,
            pow_alpha as nat == pow_nat(g as nat, m as nat) % (p as nat),
            out@ == scattered_upto(base, idx, values@, m as nat),
        decreases p - 1 - m,
    {
        proof {
            lemma_rader_indices_bound(p as nat, g as nat);
            lemma_scattered_len(base, idx, values@, m as nat);
        }
        out[pow_alpha] = values[m];
        proof {
            lemma_power_step_fits(pow_alpha as nat, g as nat, p as nat);
            lemma_next_power(g as nat, m as nat, p as nat);
            assert(idx[m as int] == pow_alpha as nat);
        }
        pow_alpha = (pow_alpha * g) % p;
        m += 1;
    }
}

/// The cyclic reversal `r[m] = a[(n - m) mod n]` of `a` (length `n`).
pub fn cyclic_reverse<T: Copy>(a: &[T]) -> (r: Vec<T>)
    ensures
        r@ == cyclic_reversed(a@),
{
    let n = a.len();
    let mut r: Vec<T> = Vec::new();
    let mut m: usize = 0;
    while m < n
        invariant
            0 <= m <= n,
            n == a@.len(),
            r@.len() == m,
            forall|j: int| 0 <= j < m ==> #[trigger] r@[j] == cyclic_reversed(a@)[j],
        decreases n - m,
    {
        r.push(a[(n - m) % n]);
        m += 1;
    }
    proof {
        assert(r@ =~= cyclic_reversed(a@));
    }
    r
}

/// Scattering keeps the length.
pub proof fn lemma_scattered_len<T>(base: Seq<T>, idx: Seq<nat>, vals: Seq<T>, k: nat)
    requires
        forall|j: int| 0 <= j < k ==> #[trigger] idx[j] < base.len(),
    ensures
        scattered_upto(base, idx, vals, k).len() == base.len(),
    decreases k,
{
    if k > 0 {
        lemma_scattered_len(base, idx, vals, (k - 1) as nat);
    }
}

/// An index that none of the first `k` writes touches keeps its value.
proof fn lemma_scattered_untouched<T>(base: Seq<T>, idx: Seq<nat>, vals: Seq<T>, k: nat, i: int)
    requires
        0 <= i < base.len(),
        forall|j: int| 0 <= j < k ==> #[trigger] idx[j] != i && idx[j] < base.len(),
    ensures
        scattered_upto(base, idx, vals, k)[i] == base[i],
    decreases k,
{
    if k > 0 {
        lemma_scattered_untouched(base, idx, vals, (k - 1) as nat, i);
        lemma_scattered_len(base, idx, vals, (k - 1) as nat);
        assert(idx[k - 1] != i);
    }
}

/// With pairwise distinct indices in range, write `m` is what stays at `idx[m]`.
proof fn lemma_scattered_at<T>(base: Seq<T>, idx: Seq<nat>, vals: Seq<T>, k: nat, m: int)
    requires
        0 <= m < k,
        k <= idx.len(),
        forall|j: int| 0 <= j < k ==> idx[j] < base.len(),
        forall|i: int, j: int| 0 <= i < j < k ==> idx[i] != idx[j],
    ensures
        scattered_upto(base, idx, vals, k)[idx[m] as int] == vals[m],
    decreases k,
{
    lemma_scattered_len(base, idx, vals, (k - 1) as nat);
    if m < k - 1 {
        lemma_scattered_at(base, idx, vals, (k - 1) as nat, m);
        assert(idx[m] != idx[k - 1]);
    }
}

/// Writing back the values that already stand at the indices changes nothing.
proof fn lemma_scattered_same<T>(s: Seq<T>, idx: Seq<nat>, vals: Seq<T>, k: nat)
    requires
        k <= idx.len(),
        k <= vals.len(),
        forall|j: int| 0 <= j < k ==> #[trigger] idx[j] < s.len() && vals[j] == s[idx[j] as int],
    ensures
        scattered_upto(s, idx, vals, k) == s,
    decreases k,
{
    if k > 0 {
        lemma_scattered_same(s, idx, vals, (k - 1) as nat);
        assert(s.update(idx[k - 1] as int, vals[k - 1]) =~= s);
    }
}

/// The Rader indices lie below `p`.
proof fn lemma_rader_indices_bound(p: nat, g: nat)
    requires
        p >= 2,
    ensures
        forall|m: int| 0 <= m < p - 1 ==> #[trigger] rader_indices(p, g)[m] < p,
{
}

/// Gathering in Rader order and scattering the result back onto the same
/// samples gives the samples back.
pub proof fn lemma_rader_gather_scatter<T>(s: Seq<T>, p: nat, g: nat)
    requires
        s.len() == p,
        p >= 2,
    ensures
        scattered(s, rader_indices(p, g), rader_gathered(s, p, g)) == s,
{
    lemma_rader_indices_bound(p, g);
    lemma_scattered_same(s, rader_indices(p, g), rader_gathered(s, p, g), (p - 1) as nat);
}

/// For a prime `p` and a primitive root `g` (1 for `p == 2`), Rader's
/// re-indexing is a permutation of the nonzero indices: scattering values in
/// Rader order and gathering them again gives the values back, and index 0 is
/// left as it was.
pub proof fn lemma_rader_scatter_gather<T>(base: Seq<T>, vals: Seq<T>, p: nat, g: nat)
    requires
        prime(p),
        base.len() == p,
        vals.len() == p - 1,
        (p == 2 && g == 1) || (p > 2 && 2 <= g < p && primitive_root_test(g, p)),
    ensures
        rader_gathered(scattered(base, rader_indices(p, g), vals), p, g) == vals,
        scattered(base, rader_indices(p, g), vals)[0] == base[0],
{
    let idx = rader_indices(p, g);
    let k = (p - 1) as nat;
    lemma_rader_indices_bound(p, g);
    if p > 2 {
        lemma_primitive_root_generates(p, g);
        assert forall|i: int, j: int| 0 <= i < j < k implies idx[i] != idx[j] by {
            assert(pow_nat(g, i as nat) % p != pow_nat(g, j as nat) % p);
        }
        assert forall|j: int| 0 <= j < k implies idx[j] != 0 by {
            assert(pow_nat(g, j as nat) % p != 0);
        }
    } else {
        assert(pow_nat(1, 0) == 1);
        lemma_small_mod(1, 2);
        assert(idx[0] == 1);
    }
    let sc = scattered(base, idx, vals);
    lemma_scattered_len(base, idx, vals, k);
    assert forall|m: int| 0 <= m < k implies #[trigger] rader_gathered(sc, p, g)[m] == vals[m] by {
        lemma_scattered_at(base, idx, vals, k, m);
    }
    assert(rader_gathered(sc, p, g) =~= vals);
    lemma_scattered_untouched(base, idx, vals, k, 0);
}

/// Cyclic reversal is its own inverse.
pub proof fn lemma_cyclic_reverse_involution<T>(s: Seq<T>)
    ensures
        cyclic_reversed(cyclic_reversed(s)) == s,
{
    let n = s.len() as int;
    let r = cyclic_reversed(s);
    assert forall|m: int| 0 <= m < n implies #[trigger] cyclic_reversed(r)[m] == s[m] by {
        let j = (n - m) % n;
        lemma_mod_bound(n - m, n);
        if m == 0 {
            lemma_mod_self_0(n);
            lemma_mod_self_0(n);
            assert(j == 0);
            assert((n - 0) % n == 0);
        } else {
            lemma_small_mod((n - m) as nat, n as nat);
            assert(j == n - m);
            lemma_small_mod(m as nat, n as nat);
            assert((n - j) % n == m);
        }
    }
    assert(cyclic_reversed(r) =~= s);
}

} // verus!
