//! # ft_winograd
//!
//! The integer side of arbitrary-length discrete Fourier transforms, verified:
//!
//! - prime factorization, primality (trial division and Miller–Rabin) and
//!   primitive roots, with Fermat's little theorem proved for the primality
//!   test, the existence of a primitive root for every prime, and the
//!   generator property of the primitive roots found;
//! - the strategy that decides which algorithm transforms a given length
//!   (radix-2, Winograd short DFT, Good–Thomas prime factor algorithm, Rader,
//!   Bluestein);
//! - the Chinese-remainder index maps, permutations and twiddle exponents of
//!   the prime factor algorithm, Rader's re-indexing by the powers of a
//!   primitive root, the size of Bluestein's convolution, and the bit-reversal
//!   permutation of the radix-2 FFT;
//! - length validation, errors, and the `DFT` and `DFTPlan` handles.
pub mod error;
pub mod number_theory;
pub mod primes;
pub mod modular;
pub mod fermat;
pub mod primality;
pub mod factorization;
pub mod fft_arbitrary;
pub mod plan;
pub mod index_map;
pub mod rader;
pub mod bluestein;
pub mod primitive_roots;

pub use error::{DftError, DftResult, validate_length};
pub use fft_arbitrary::DFT;
pub use plan::DFTPlan;
