# ft_winograd

Arbitrary-length discrete Fourier transforms, with the integer side of the
algorithms verified in Verus.

## Layout

- `src/` — the verified library.
  - `error.rs`: length validation, `DftError` and its messages.
  - `primes.rs`, `number_theory.rs`, `modular.rs`, `fermat.rs`, `primality.rs`:
    the mathematics the contracts are stated in (prime factorizations, gcd and
    Bézout, the Chinese remainder theorem, Fermat's little theorem, the
    Miller–Rabin test).
  - `factorization.rs`: `factorize`, `is_prime`, `primitive_root`,
    `next_power_of_two` and `choose_strategy`, which picks radix-2, Winograd
    short DFT, Good–Thomas prime factor algorithm or Bluestein for a length.
  - `index_map.rs`: the Good–Thomas CRT index maps, permutations and twiddle
    exponents.
  - `rader.rs`: Rader's re-indexing by the powers of a primitive root.
  - `bluestein.rs`: the size of Bluestein's convolution.
  - `fft_arbitrary.rs`, `plan.rs`: the `DFT` and `DFTPlan` handles and the
    bit-reversal permutation of the radix-2 FFT.
- `tests/` — tests of the library on concrete values.
- `app/` — the floating-point transforms (Winograd butterflies, cyclic
  convolutions, Rader, Bluestein, prime factor and radix-2 FFTs) on the complex
  samples of the `fft_rs_ma` backend, driven by the library's strategies and
  index maps, and the command-line demo.
