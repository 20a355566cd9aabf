//! The arbitrary-length DFT handle: holds a validated input signal.
use vstd::prelude::*;
use crate::error::{DftError, DftResult, validate_length, valid_length, MAX_DFT_SIZE};
use crate::primes::{pow_nat, lemma_pow2_even};

verus! {

/// DFT computation handle for arbitrary-length input: a signal of length
/// `1..=MAX_DFT_SIZE`, any length rather than only powers of 2.
pub struct DFT<T> {
    data: Vec<T>,
}

impl<T> View for DFT<T> {
    type V = Seq<T>;

    closed spec fn view(&self) -> Seq<T> {
        self.data@
    }
}

impl<T> DFT<T> {
    #[verifier::type_invariant]
    spec fn well_formed(self) -> bool {
        valid_length(self.data@.len())
    }

    /// Create a new `DFT` from a `Vec<T>`; accepts any positive length up to
    /// `MAX_DFT_SIZE`.
    pub fn new(data: Vec<T>) -> (r: DftResult<Self>)
        ensures
            match r {
                Ok(d) => valid_length(data@.len()) && d@ == data@,
                Err(e) => {
                    &&& data@.len() == 0 ==> e == DftError::ZeroLength
                    &&& data@.len() > MAX_DFT_SIZE ==> e == DftError::TooLarge(data@.len() as usize)
                    &&& !valid_length(data@.len())
                },
            },
    {
        match validate_length(data.len()) {
            Ok(()) => Ok(DFT { data }),
            Err(e) => Err(e),
        }
    }

    /// Create a new `DFT` by copying a slice.
    pub fn from_slice(slice: &[T]) -> (r: DftResult<Self>)
        where
            T: Copy,
        ensures
            match r {
                Ok(d) => valid_length(slice@.len()) && d@ == slice@,
                Err(e) => {
                    &&& slice@.len() == 0 ==> e == DftError::ZeroLength
                    &&& slice@.len() > MAX_DFT_SIZE ==> e == DftError::TooLarge(slice@.len() as usize)
                    &&& !valid_length(slice@.len())
                },
            },
    {
        Self::new(vstd::slice::slice_to_vec(slice))
    }

    /// Return the number of samples.
    pub fn len(&self) -> (r: usize)
        ensures
            r == self@.len(),
            valid_length(r as nat),
    {
        proof {
            use_type_invariant(self);
        }
        self.data.len()
    }

    /// Return `true` if there are no samples (never, for a constructed `DFT`).
    pub fn is_empty(&self) -> (r: bool)
        ensures
            r == (self@.len() == 0),
            !r,
    {
        proof {
            use_type_invariant(self);
        }
        self.data.len() == 0
    }

    /// Get a reference to the input data.
    pub fn input(&self) -> (r: &[T])
        ensures
            r@ == self@,
    {
        self.data.as_slice()
    }
}

/// The low `k` bits of `x` in reverse order.
pub open spec fn reversed_bits(x: nat, k: nat) -> nat
    decreases k,
{
    if k == 0 {
        0
    } else {
        (x % 2) * pow_nat(2, (k - 1) as nat) + reversed_bits(x / 2, (k - 1) as nat)
    }
}

/// `reversed_bits(x, k) < 2^k`.
pub proof fn lemma_reversed_bits_bound(x: nat, k: nat)
    ensures
        reversed_bits(x, k) < pow_nat(2, k),
    decreases k,
{
    if k == 0 {
        assert(pow_nat(2, 0) == 1);
    } else {
        lemma_reversed_bits_bound(x / 2, (k - 1) as nat);
        lemma_pow2_even(k);
        assert((x % 2) * pow_nat(2, (k - 1) as nat) <= pow_nat(2, (k - 1) as nat)) by (nonlinear_arith)
            requires
                x % 2 <= 1,
        ;
    }
}

/// Reverse the low `log2n` bits of `x` (the bit-reversed index of a radix-2 FFT
/// of size `2^log2n`).
pub fn bit_reverse(x: usize, log2n: usize) -> (r: usize)
    requires
        1 <= log2n <= usize::BITS,
    ensures
        r == reversed_bits(x as nat, log2n as nat),
{
    let mut r: usize = 0;
    let mut y: usize = x;
    let mut i: usize = 0;
    proof {
        assert(pow_nat(2, 0) == 1);
        vstd::layout::unsigned_int_max_values();
        crate::primes::lemma_pow_nat_two((usize::BITS - 1) as nat);
        crate::primes::lemma_pow_nat_two(usize::BITS as nat);
        lemma_pow2_even(usize::BITS as nat);
    }
    while i < log2n
        invariant
            0 <= i <= log2n,
            1 <= log2n <= usize::BITS,
            r < pow_nat(2, i as nat),
            pow_nat(2, (usize::BITS - 1) as nat) == usize::MAX / 2 + 1,
            r * pow_nat(2, (log2n - i) as nat) + reversed_bits(y as nat, (log2n - i) as nat)
                == reversed_bits(x as nat, log2n as nat),
        decreases log2n - i,
    {
        let ghost m = (log2n - i) as nat;
        proof {
            crate::factorization::lemma_pow_nat_monotone(2, i as nat, (usize::BITS - 1) as nat);
            lemma_pow2_even(m);
            lemma_pow2_even((i + 1) as nat);
            assert((r * 2 + y % 2) * pow_nat(2, (m - 1) as nat) + reversed_bits((y / 2) as nat, (m - 1) as nat)
                == r * pow_nat(2, m) + reversed_bits(y as nat, m)) by (nonlinear_arith)
                requires
                    pow_nat(2, m) == 2 * pow_nat(2, (m - 1) as nat),
                    reversed_bits(y as nat, m) == (y % 2) * pow_nat(2, (m - 1) as nat)
                        + reversed_bits((y / 2) as nat, (m - 1) as nat),
            ;
        }
        r = r * 2 + y % 2;
        y = y / 2;
        i = i + 1;
    }
    proof {
        assert(pow_nat(2, 0) == 1);
        assert(reversed_bits(y as nat, 0) == 0);
        vstd::arithmetic::mul::lemma_mul_basics(r as int);
    }
    r
}

/// Reversing `k` bits of `y + b * 2^(k-1)` (for `y < 2^(k-1)`, `b` a bit)
/// moves the top bit `b` to the bottom.
proof fn lemma_reversed_top_bit(y: nat, b: nat, k: nat)
    requires
        k >= 1,
        b <= 1,
        y < pow_nat(2, (k - 1) as nat),
    ensures
        reversed_bits(y + b * pow_nat(2, (k - 1) as nat), k) == 2 * reversed_bits(y, (k - 1) as nat) + b,
    decreases k,
{
    if k == 1 {
        assert(pow_nat(2, 0) == 1);
        assert(y == 0);
        assert(reversed_bits(b, 0) == 0);
        assert(reversed_bits(b / 2, 0) == 0);
        assert(reversed_bits(0, 0) == 0);
        assert(b * 1 == b);
    } else {
        let h = pow_nat(2, (k - 2) as nat);
        lemma_pow2_even((k - 1) as nat);
        assert(pow_nat(2, (k - 1) as nat) == 2 * h);
        let z = y + b * (2 * h);
        assert(z % 2 == y % 2 && z / 2 == y / 2 + b * h) by {
            vstd::arithmetic::div_mod::lemma_fundamental_div_mod(y as int, 2);
            assert(z == 2 * (y / 2 + b * h) + y % 2) by (nonlinear_arith)
                requires
                    z == y + b * (2 * h),
                    y == 2 * (y / 2) + y % 2,
            ;
            vstd::arithmetic::div_mod::lemma_fundamental_div_mod_converse(
                z as int,
                2,
                (y / 2 + b * h) as int,
                (y % 2) as int,
            );
        }
        assert(y / 2 < h) by (nonlinear_arith)
            requires
                y < 2 * h,
        ;
        lemma_reversed_top_bit(y / 2, b, (k - 1) as nat);
        assert(reversed_bits(y, (k - 1) as nat) == (y % 2) * h + reversed_bits(y / 2, (k - 2) as nat));
        assert(reversed_bits(z, k) == (z % 2) * pow_nat(2, (k - 1) as nat) + reversed_bits(z / 2, (k - 1) as nat));
        assert((y % 2) * (2 * h) == 2 * ((y % 2) * h)) by (nonlinear_arith);
    }
}

/// Reversing `k` bits twice gives back any `x < 2^k`.
pub proof fn lemma_reversed_bits_involution(x: nat, k: nat)
    requires
        x < pow_nat(2, k),
    ensures
        reversed_bits(reversed_bits(x, k), k) == x,
    decreases k,
{
    if k == 0 {
        assert(pow_nat(2, 0) == 1);
        assert(x == 0);
    } else {
        let b = x % 2;
        let xh = x / 2;
        lemma_pow2_even(k);
        assert(xh < pow_nat(2, (k - 1) as nat)) by (nonlinear_arith)
            requires
                x < pow_nat(2, k),
                pow_nat(2, k) == 2 * pow_nat(2, (k - 1) as nat),
                xh == x / 2,
        ;
        lemma_reversed_bits_involution(xh, (k - 1) as nat);
        lemma_reversed_bits_bound(xh, (k - 1) as nat);
        let r = reversed_bits(xh, (k - 1) as nat);
        assert(reversed_bits(x, k) == r + b * pow_nat(2, (k - 1) as nat)) by {
            vstd::arithmetic::mul::lemma_mul_is_commutative(b as int, pow_nat(2, (k - 1) as nat) as int);
        }
        lemma_reversed_top_bit(r, b, k);
        vstd::arithmetic::div_mod::lemma_fundamental_div_mod(x as int, 2);
    }
}

/// The bit-reversal permutation of a sequence of length `2^k`.
pub open spec fn bit_reversed<T>(s: Seq<T>, k: nat) -> Seq<T> {
    Seq::new(s.len(), |i: int| s[reversed_bits(i as nat, k) as int])
}

/// Reorder `data` (of length `2^log2n`) into bit-reversed order, as the first
/// stage of a radix-2 decimation-in-time FFT: `data[i]` becomes the old
/// `data[bit_reverse(i, log2n)]`, by swapping each pair once.
pub fn bit_reverse_permute<T: Copy>(data: &mut [T], log2n: usize)
    requires
        1 <= log2n <= usize::BITS,
        old(data)@.len() == pow_nat(2, log2n as nat),
    ensures
        final(data)@ == bit_reversed(old(data)@, log2n as nat),
{
    let n = data.len();
    let ghost orig = data@;
    let mut i: usize = 0;
    while i < n
        invariant
            0 <= i <= n,
            n == data@.len(),
            n == orig.len(),
            1 <= log2n <= usize::BITS,
            n == pow_nat(2, log2n as nat),
            forall|t: int|
                0 <= t < n ==> #[trigger] data@[t] == if t < i || reversed_bits(t as nat, log2n as nat)
                    < i {
                    orig[reversed_bits(t as nat, log2n as nat) as int]
                } else {
                    orig[t]
                },
        decreases n - i,
    {
        let j = bit_reverse(i, log2n);
        proof {
            lemma_reversed_bits_bound(i as nat, log2n as nat);
            lemma_reversed_bits_involution(i as nat, log2n as nat);
            assert forall|t: int| 0 <= t < n implies #[trigger] reversed_bits(t as nat, log2n as nat) < n by {
                lemma_reversed_bits_bound(t as nat, log2n as nat);
            }
        }
        if i < j {
            let a = data[i];
            let b = data[j];
            data[i] = b;
            data[j] = a;
            proof {
                assert forall|t: int| 0 <= t < n && t != i && t != j implies #[trigger] reversed_bits(t as nat, log2n as nat) != i
                    && reversed_bits(t as nat, log2n as nat) != j by {
                    lemma_reversed_bits_bound(t as nat, log2n as nat);
                    lemma_reversed_bits_involution(t as nat, log2n as nat);
                }
            }
        } else {
            proof {
                assert forall|t: int| 0 <= t < n && t != i && #[trigger] reversed_bits(t as nat, log2n as nat) == i implies t == j by {
                    lemma_reversed_bits_involution(t as nat, log2n as nat);
                }
            }
        }
        i += 1;
    }
    proof {
        assert(data@ =~= bit_reversed(orig, log2n as nat));
    }
}

/// Applying the bit-reversal permutation twice restores the sequence.
pub proof fn lemma_bit_reversed_involution<T>(s: Seq<T>, k: nat)
    requires
        s.len() == pow_nat(2, k),
    ensures
        bit_reversed(bit_reversed(s, k), k) == s,
{
    assert forall|i: int| 0 <= i < s.len() implies #[trigger] bit_reversed(bit_reversed(s, k), k)[i] == s[i] by {
        lemma_reversed_bits_bound(i as nat, k);
        lemma_reversed_bits_involution(i as nat, k);
    }
    assert(bit_reversed(bit_reversed(s, k), k) =~= s);
}

} // verus!
