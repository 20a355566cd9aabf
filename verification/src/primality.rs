//! The Miller–Rabin test and trial division by small primes.
use vstd::prelude::*;
use crate::modular::mod_pow_spec;
use crate::primes::{prime, lemma_mod_transitive, lemma_large_remainder_prime};

verus! {

/// The primes from 5 to 37, tried as divisors before the Miller–Rabin rounds.
pub open spec fn small_primes() -> Seq<nat> {
    seq![5nat, 7, 11, 13, 17, 19, 23, 29, 31, 37]
}

/// The bases of the Miller–Rabin rounds.
pub open spec fn witness_bases() -> Seq<nat> {
    seq![2nat, 3, 5, 7, 11, 13, 17, 19, 23, 29, 31, 37]
}

/// `m` with every factor 2 divided out.
pub open spec fn odd_part(m: nat) -> nat
    decreases m,
{
    if m > 0 && m % 2 == 0 {
        odd_part(m / 2)
    } else {
        m
    }
}

/// The exponent of 2 in `m > 0`.
pub open spec fn two_exponent(m: nat) -> nat
    decreases m,
{
    if m > 0 && m % 2 == 0 {
        1 + two_exponent(m / 2)
    } else {
        0
    }
}

/// `x` squared `r` times modulo `n`.
pub open spec fn square_chain(x: nat, r: nat, n: nat) -> nat
    decreases r,
{
    if r == 0 {
        x
    } else {
        let y = square_chain(x, (r - 1) as nat, n);
        (y * y) % n
    }
}

/// One Miller–Rabin round for `n` with `n - 1 = d * 2^s` and base `a`: `a^d` is
/// 1 or -1 modulo `n`, or one of its first `s - 1` repeated squares is -1.
pub open spec fn strong_probable_prime_round(a: nat, d: nat, s: nat, n: nat) -> bool {
    let x = mod_pow_spec(a, d, n);
    x == 1 || x == n - 1 || exists|r: nat| 1 <= r < s && #[trigger] square_chain(x, r, n) == n - 1
}

/// What the primality test accepts: 2 and 3; the small primes of the table;
/// and, among numbers with no factor 2, 3 or from the table, those that pass a
/// Miller–Rabin round for every base below them.
pub open spec fn passes_primality_test(n: nat) -> bool {
    if n < 2 {
        false
    } else if n < 4 {
        true
    } else if n % 2 == 0 || n % 3 == 0 {
        false
    } else if small_primes().contains(n) {
        true
    } else if exists|i: int| 0 <= i < 10 && n % #[trigger] small_primes()[i] == 0 {
        false
    } else {
        forall|i: int|
            0 <= i < 12 && #[trigger] witness_bases()[i] < n ==> strong_probable_prime_round(
                witness_bases()[i],
                odd_part((n - 1) as nat),
                two_exponent((n - 1) as nat),
                n,
            )
    }
}

/// No two different entries of the small-prime table divide one another.
pub proof fn lemma_small_primes_coprime()
    ensures
        forall|i: int, j: int|
            0 <= i < 10 && 0 <= j < 10 && i != j ==> #[trigger] small_primes()[j] % #[trigger] small_primes()[i] != 0,
        forall|i: int| 0 <= i < 10 ==> 5 <= #[trigger] small_primes()[i] <= 37,
{
    let s = small_primes();
    assert(s[0] == 5 && s[1] == 7 && s[2] == 11 && s[3] == 13 && s[4] == 17 && s[5] == 19 && s[6] == 23 && s[7] == 29 && s[8] == 31 && s[9] == 37);
    assert forall|i: int| 0 <= i < 10 implies 5 <= #[trigger] s[i] <= 37 by {
        if i == 0 {
        } else if i == 1 {
        } else if i == 2 {
        } else if i == 3 {
        } else if i == 4 {
        } else if i == 5 {
        } else if i == 6 {
        } else if i == 7 {
        } else if i == 8 {
        } else {
        }
    }
    assert forall|i: int, j: int| 0 <= i < 10 && 0 <= j < 10 && i != j implies #[trigger] s[j] % #[trigger] s[i] != 0 by {
        if i == 0 {
            if j == 1 {
                assert(7nat % 5nat != 0);
            } else if j == 2 {
                assert(11nat % 5nat != 0);
            } else if j == 3 {
                assert(13nat % 5nat != 0);
            } else if j == 4 {
                assert(17nat % 5nat != 0);
            } else if j == 5 {
                assert(19nat % 5nat != 0);
            } else if j == 6 {
                assert(23nat % 5nat != 0);
            } else if j == 7 {
                assert(29nat % 5nat != 0);
            } else if j == 8 {
                assert(31nat % 5nat != 0);
            } else if j == 9 {
                assert(37nat % 5nat != 0);
            }
        } else if i == 1 {
            if j == 0 {
                assert(5nat % 7nat != 0);
            } else if j == 2 {
                assert(11nat % 7nat != 0);
            } else if j == 3 {
                assert(13nat % 7nat != 0);
            } else if j == 4 {
                assert(17nat % 7nat != 0);
            } else if j == 5 {
                assert(19nat % 7nat != 0);
            } else if j == 6 {
                assert(23nat % 7nat != 0);
            } else if j == 7 {
                assert(29nat % 7nat != 0);
            } else if j == 8 {
                assert(31nat % 7nat != 0);
            } else if j == 9 {
                assert(37nat % 7nat != 0);
            }
        } else if i == 2 {
            if j == 0 {
                assert(5nat % 11nat != 0);
            } else if j == 1 {
                assert(7nat % 11nat != 0);
            } else if j == 3 {
                assert(13nat % 11nat != 0);
            } else if j == 4 {
                assert(17nat % 11nat != 0);
            } else if j == 5 {
                assert(19nat % 11nat != 0);
            } else if j == 6 {
                assert(23nat % 11nat != 0);
            } else if j == 7 {
                assert(29nat % 11nat != 0);
            } else if j == 8 {
                assert(31nat % 11nat != 0);
            } else if j == 9 {
                assert(37nat % 11nat != 0);
            }
        } else if i == 3 {
            if j == 0 {
                assert(5nat % 13nat != 0);
            } else if j == 1 {
                assert(7nat % 13nat != 0);
            } else if j == 2 {
                assert(11nat % 13nat != 0);
            } else if j == 4 {
                assert(17nat % 13nat != 0);
            } else if j == 5 {
                assert(19nat % 13nat != 0);
            } else if j == 6 {
                assert(23nat % 13nat != 0);
            } else if j == 7 {
                assert(29nat % 13nat != 0);
            } else if j == 8 {
                assert(31nat % 13nat != 0);
            } else if j == 9 {
                assert(37nat % 13nat != 0);
            }
        } else if i == 4 {
            if j == 0 {
                assert(5nat % 17nat != 0);
            } else if j == 1 {
                assert(7nat % 17nat != 0);
            } else if j == 2 {
                assert(11nat % 17nat != 0);
            } else if j == 3 {
                assert(13nat % 17nat != 0);
            } else if j == 5 {
                assert(19nat % 17nat != 0);
            } else if j == 6 {
                assert(23nat % 17nat != 0);
            } else if j == 7 {
                assert(29nat % 17nat != 0);
            } else if j == 8 {
                assert(31nat % 17nat != 0);
            } else if j == 9 {
                assert(37nat % 17nat != 0);
            }
        } else if i == 5 {
            if j == 0 {
                assert(5nat % 19nat != 0);
            } else if j == 1 {
                assert(7nat % 19nat != 0);
            } else if j == 2 {
                assert(11nat % 19nat != 0);
            } else if j == 3 {
                assert(13nat % 19nat != 0);
            } else if j == 4 {
                assert(17nat % 19nat != 0);
            } else if j == 6 {
                assert(23nat % 19nat != 0);
            } else if j == 7 {
                assert(29nat % 19nat != 0);
            } else if j == 8 {
                assert(31nat % 19nat != 0);
            } else if j == 9 {
                assert(37nat % 19nat != 0);
            }
        } else if i == 6 {
            if j == 0 {
                assert(5nat % 23nat != 0);
            } else if j == 1 {
                assert(7nat % 23nat != 0);
            } else if j == 2 {
                assert(11nat % 23nat != 0);
            } else if j == 3 {
                assert(13nat % 23nat != 0);
            } else if j == 4 {
                assert(17nat % 23nat != 0);
            } else if j == 5 {
                assert(19nat % 23nat != 0);
            } else if j == 7 {
                assert(29nat % 23nat != 0);
            } else if j == 8 {
                assert(31nat % 23nat != 0);
            } else if j == 9 {
                assert(37nat % 23nat != 0);
            }
        } else if i == 7 {
            if j == 0 {
                assert(5nat % 29nat != 0);
            } else if j == 1 {
                assert(7nat % 29nat != 0);
            } else if j == 2 {
                assert(11nat % 29nat != 0);
            } else if j == 3 {
                assert(13nat % 29nat != 0);
            } else if j == 4 {
                assert(17nat % 29nat != 0);
            } else if j == 5 {
                assert(19nat % 29nat != 0);
            } else if j == 6 {
                assert(23nat % 29nat != 0);
            } else if j == 8 {
                assert(31nat % 29nat != 0);
            } else if j == 9 {
                assert(37nat % 29nat != 0);
            }
        } else if i == 8 {
            if j == 0 {
                assert(5nat % 31nat != 0);
            } else if j == 1 {
                assert(7nat % 31nat != 0);
            } else if j == 2 {
                assert(11nat % 31nat != 0);
            } else if j == 3 {
                assert(13nat % 31nat != 0);
            } else if j == 4 {
                assert(17nat % 31nat != 0);
            } else if j == 5 {
                assert(19nat % 31nat != 0);
            } else if j == 6 {
                assert(23nat % 31nat != 0);
            } else if j == 7 {
                assert(29nat % 31nat != 0);
            } else if j == 9 {
                assert(37nat % 31nat != 0);
            }
        } else if i == 9 {
            if j == 0 {
                assert(5nat % 37nat != 0);
            } else if j == 1 {
                assert(7nat % 37nat != 0);
            } else if j == 2 {
                assert(11nat % 37nat != 0);
            } else if j == 3 {
                assert(13nat % 37nat != 0);
            } else if j == 4 {
                assert(17nat % 37nat != 0);
            } else if j == 5 {
                assert(19nat % 37nat != 0);
            } else if j == 6 {
                assert(23nat % 37nat != 0);
            } else if j == 7 {
                assert(29nat % 37nat != 0);
            } else if j == 8 {
                assert(31nat % 37nat != 0);
            }
        }
    }
}

/// Every number from 2 to 40 is a multiple of 2, 3 or 5, or is one of the
/// larger table primes.
proof fn lemma_below_41(k: nat)
    requires
        2 <= k < 41,
    ensures
        k % 2 == 0 || k % 3 == 0 || k % 5 == 0 || k == 7 || k == 11 || k == 13 || k == 17 || k
            == 19 || k == 23 || k == 29 || k == 31 || k == 37,
{
}

/// A number below `41 * 41` with no divisor among 2, 3 and the table primes
/// (other than itself) is prime.
pub proof fn lemma_trial_division_prime(n: nat)
    requires
        2 <= n < 1681,
        2 < n ==> n % 2 != 0,
        3 < n ==> n % 3 != 0,
        forall|i: int| 0 <= i < 10 && #[trigger] small_primes()[i] < n ==> n % small_primes()[i] != 0,
    ensures
        prime(n),
{
    let sp = small_primes();
    lemma_small_primes_coprime();
    assert(sp[0] == 5 && sp[1] == 7 && sp[2] == 11 && sp[3] == 13 && sp[4] == 17 && sp[5] == 19 && sp[6] == 23 && sp[7] == 29 && sp[8] == 31 && sp[9] == 37);
    let d: nat = if n <= 41 { n } else { 41 };
    assert forall|k: nat| 2 <= k < d implies #[trigger] (n % k) != 0 by {
        if n % k == 0 {
            lemma_below_41(k);
            if k % 2 == 0 {
                lemma_mod_transitive(n, k, 2);
            } else if k % 3 == 0 {
                lemma_mod_transitive(n, k, 3);
            } else if k % 5 == 0 {
                lemma_mod_transitive(n, k, 5);
                assert(sp[0] < n);
            } else if k == 7 {
                assert(sp[1] < n);
            } else if k == 11 {
                assert(sp[2] < n);
            } else if k == 13 {
                assert(sp[3] < n);
            } else if k == 17 {
                assert(sp[4] < n);
            } else if k == 19 {
                assert(sp[5] < n);
            } else if k == 23 {
                assert(sp[6] < n);
            } else if k == 29 {
                assert(sp[7] < n);
            } else if k == 31 {
                assert(sp[8] < n);
            } else {
                assert(sp[9] < n);
            }
        }
    }
    lemma_large_remainder_prime(n, d);
}

/// Below `41 * 41` the primality test accepts primes only.
pub proof fn lemma_primality_test_sound_below_1681(n: nat)
    requires
        passes_primality_test(n),
        n < 1681,
    ensures
        prime(n),
{
    let sp = small_primes();
    lemma_small_primes_coprime();
    if n >= 4 && sp.contains(n) {
        let j = choose|j: int| 0 <= j < sp.len() && sp[j] == n;
        assert forall|i: int| 0 <= i < 10 && #[trigger] sp[i] < n implies n % sp[i] != 0 by {
            assert(i != j);
        }
    }
    lemma_trial_division_prime(n);
}

/// The exponent of 2 in `m` is at most `m`.
pub proof fn lemma_two_exponent_bound(m: nat)
    ensures
        two_exponent(m) <= m,
    decreases m,
{
    if m > 0 && m % 2 == 0 {
        lemma_two_exponent_bound(m / 2);
    }
}

/// 3, 5, 7, 11 and 13 are prime.
pub proof fn lemma_winograd_lengths_prime(n: nat)
    requires
        n == 3 || n == 5 || n == 7 || n == 11 || n == 13,
    ensures
        prime(n),
{
    let d: nat = if n <= 3 { 2 } else if n <= 7 { 3 } else { 4 };
    assert forall|k: nat| 2 <= k < d implies #[trigger] (n % k) != 0 by {
        if k == 2 {
        } else {
            assert(k == 3);
        }
    }
    lemma_large_remainder_prime(n, d);
}

} // verus!
