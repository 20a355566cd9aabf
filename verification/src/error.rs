//! Error types for arbitrary-length DFT computation.
use vstd::prelude::*;

verus! {

/// Maximum DFT size for arbitrary-length transforms (`2^26`, about 67 million
/// samples), since Bluestein's algorithm pads to the next power of 2.
pub const MAX_DFT_SIZE: usize = 1 << 26;

/// `MAX_DFT_SIZE` is `2^26`, well within half the `usize` range.
pub proof fn lemma_max_dft_size()
    ensures
        MAX_DFT_SIZE == 0x400_0000,
        MAX_DFT_SIZE <= usize::MAX / 2,
{
    assert(1usize << 26usize == 0x400_0000usize) by (bit_vector);
}

/// Errors that can occur during arbitrary-length DFT computation.
#[derive(Debug)]
pub enum DftError {
    /// Input length is 0.
    ZeroLength,
    /// Input length exceeds `MAX_DFT_SIZE`.
    TooLarge(usize),
    /// Integer factorization failed for the given length.
    FactorizationFailed(usize),
    /// No primitive root found for the given prime (should not happen mathematically).
    NoPrimitiveRoot(usize),
    /// An error reported by the power-of-two FFT backend, carried as its message.
    FftError(String),
}

/// Result type for arbitrary-length DFT operations.
pub type DftResult<T> = Result<T, DftError>;

/// The lengths that an arbitrary-length DFT accepts.
pub open spec fn valid_length(n: nat) -> bool {
    1 <= n <= MAX_DFT_SIZE
}

/// Validate length for arbitrary DFT (accepts any positive integer up to
/// `MAX_DFT_SIZE`, not just powers of 2).
pub fn validate_length(n: usize) -> (r: DftResult<()>)
    ensures
        n == 0 ==> r == Err::<(), DftError>(DftError::ZeroLength),
        n > MAX_DFT_SIZE ==> r == Err::<(), DftError>(DftError::TooLarge(n)),
        valid_length(n as nat) ==> r == Ok::<(), DftError>(()),
{
    if n == 0 {
        return Err(DftError::ZeroLength);
    }
    if n > MAX_DFT_SIZE {
        return Err(DftError::TooLarge(n));
    }
    Ok(())
}

/// The decimal digit for `d < 10`.
pub open spec fn digit_char(d: nat) -> char {
        if d == 0 {
            '0'
        } else if d == 1 {
            '1'
        } else if d == 2 {
            '2'
        } else if d == 3 {
            '3'
        } else if d == 4 {
            '4'
        } else if d == 5 {
            '5'
        } else if d == 6 {
            '6'
        } else if d == 7 {
            '7'
        } else if d == 8 {
            '8'
        } else {
            '9'
        }
}

/// The decimal representation of `n`, without leading zeros.
pub open spec fn decimal(n: nat) -> Seq<char>
    decreases n,
{
    if n < 10 {
        seq![digit_char(n)]
    } else {
        decimal(n / 10).push(digit_char(n % 10))
    }
}

/// The one-character string of the digit `d`.
fn digit_str(d: usize) -> (s: &'static str)
    requires
        d < 10,
    ensures
        s@ == seq![digit_char(d as nat)],
{
    if d == 0 {
        proof {
            reveal_strlit("0");
        }
        "0"
    } else if d == 1 {
        proof {
            reveal_strlit("1");
        }
        "1"
    } else if d == 2 {
        proof {
            reveal_strlit("2");
        }
        "2"
    } else if d == 3 {
        proof {
            reveal_strlit("3");
        }
        "3"
    } else if d == 4 {
        proof {
            reveal_strlit("4");
        }
        "4"
    } else if d == 5 {
        proof {
            reveal_strlit("5");
        }
        "5"
    } else if d == 6 {
        proof {
            reveal_strlit("6");
        }
        "6"
    } else if d == 7 {
        proof {
            reveal_strlit("7");
        }
        "7"
    } else if d == 8 {
        proof {
            reveal_strlit("8");
        }
        "8"
    } else {
        proof {
            reveal_strlit("9");
        }
        "9"
    }
}

/// The decimal representation of `n`.
fn decimal_string(n: usize) -> (s: String)
    ensures
        s@ == decimal(n as nat),
    decreases n,
{
    if n < 10 {
        String::from_str(digit_str(n))
    } else {
        let mut s = decimal_string(n / 10);
        s.append(digit_str(n % 10));
        s
    }
}

impl DftError {
    /// The human-readable description of the error.
    pub open spec fn message_spec(&self) -> Seq<char> {
        match self {
            DftError::ZeroLength => "DFT length must be positive (got 0)"@,
            DftError::TooLarge(n) => "DFT length "@ + decimal(*n as nat) + " exceeds maximum "@
                + decimal(MAX_DFT_SIZE as nat),
            DftError::FactorizationFailed(n) => "Failed to factorize DFT length "@ + decimal(
                *n as nat,
            ),
            DftError::NoPrimitiveRoot(p) => "No primitive root found for prime "@ + decimal(
                *p as nat,
            ) + " (mathematically impossible)"@,
            DftError::FftError(e) => "fft_rs error: "@ + e@,
        }
    }

    /// The human-readable description of the error (what `Display` shows).
    pub fn message(&self) -> (s: String)
        ensures
            s@ == self.message_spec(),
    {
        match self {
            DftError::ZeroLength => String::from_str("DFT length must be positive (got 0)"),
            DftError::TooLarge(n) => {
                let mut s = String::from_str("DFT length ");
                s.append(decimal_string(*n).as_str());
                s.append(" exceeds maximum ");
                s.append(decimal_string(MAX_DFT_SIZE).as_str());
                s
            },
            DftError::FactorizationFailed(n) => {
                let mut s = String::from_str("Failed to factorize DFT length ");
                s.append(decimal_string(*n).as_str());
                s
            },
            DftError::NoPrimitiveRoot(p) => {
                let mut s = String::from_str("No primitive root found for prime ");
                s.append(decimal_string(*p).as_str());
                s.append(" (mathematically impossible)");
                s
            },
            DftError::FftError(e) => {
                let mut s = String::from_str("fft_rs error: ");
                s.append(e.as_str());
                s
            },
        }
    }
}

} // verus!
