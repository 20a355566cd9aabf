use ft_winograd::error::{validate_length, DftError, MAX_DFT_SIZE};
use ft_winograd::factorization::{
    choose_strategy, factorize, is_power_of_two, is_prime, next_power_of_two, primitive_root,
    TransformStrategy, THRESHOLD_PFA,
};
use ft_winograd::fft_arbitrary::{bit_reverse, bit_reverse_permute, DFT};
use ft_winograd::index_map::{
    crt_coefficients, gcd, pfa_forward, pfa_index_inverse, pfa_inverse, pfa_twiddle_exponent,
    pfa_twiddle_multipliers,
};
use ft_winograd::plan::DFTPlan;

#[test]
fn next_power_of_two_values() {
    assert_eq!(next_power_of_two(0), 1);
    assert_eq!(next_power_of_two(1), 1);
    assert_eq!(next_power_of_two(5), 8);
    assert_eq!(next_power_of_two(1024), 1024);
    assert_eq!(next_power_of_two(1025), 2048);
    assert_eq!(next_power_of_two(1999), 2048);
    assert_eq!(next_power_of_two(usize::MAX), 1);
}

#[test]
fn is_power_of_two_values() {
    assert!(!is_power_of_two(0));
    assert!(is_power_of_two(1));
    assert!(is_power_of_two(64));
    assert!(!is_power_of_two(96));
    assert!(is_power_of_two(1usize << 40));
}

#[test]
fn factorize_edge_cases() {
    assert_eq!(factorize(0), vec![]);
    assert_eq!(factorize(1), vec![]);
    assert_eq!(factorize(1024), vec![(2, 10)]);
    assert_eq!(factorize(97 * 97 * 3), vec![(3, 1), (97, 2)]);
    assert_eq!(factorize(1_000_000_007), vec![(1_000_000_007, 1)]);
}

#[test]
fn is_prime_beyond_trial_division() {
    assert!(!is_prime(0));
    assert!(!is_prime(1));
    assert!(!is_prime(561)); // Carmichael number
    assert!(!is_prime(1681)); // 41 * 41
    assert!(is_prime(1_000_000_007));
    assert!(!is_prime(1_000_000_007 * 3));
}

#[test]
fn primitive_root_values() {
    assert_eq!(primitive_root(2), Some(1));
    assert_eq!(primitive_root(7), Some(3));
    assert_eq!(primitive_root(11), Some(2));
    assert_eq!(primitive_root(1), None);
    assert_eq!(primitive_root(4), None);
    assert_eq!(primitive_root(15), None);
}

#[test]
fn primitive_root_generates_nonzero_residues() {
    for &p in &[3usize, 5, 7, 11, 13, 97, 101] {
        let g = primitive_root(p).unwrap();
        let mut seen = vec![false; p];
        let mut x = 1usize;
        for _ in 0..p - 1 {
            assert!(!seen[x]);
            seen[x] = true;
            x = x * g % p;
        }
        assert!(seen[1..].iter().all(|&b| b));
    }
}

#[test]
fn choose_strategy_each_kind() {
    assert!(matches!(choose_strategy(1).unwrap(), TransformStrategy::Radix2 { log2n: 0 }));
    assert!(matches!(choose_strategy(7).unwrap(), TransformStrategy::WinogradShort { n: 7 }));
    assert!(matches!(
        choose_strategy(10).unwrap(),
        TransformStrategy::PrimeFactor { n1: 2, n2: 5 }
    ));
    assert!(matches!(choose_strategy(27).unwrap(), TransformStrategy::Bluestein { m: 64 }));
    assert!(matches!(choose_strategy(97).unwrap(), TransformStrategy::Bluestein { m: 256 }));
    // above the prime factor threshold a coprime length goes to Bluestein
    assert!(matches!(
        choose_strategy(THRESHOLD_PFA + 2).unwrap(),
        TransformStrategy::Bluestein { m: 1024 }
    ));
}

#[test]
fn validate_length_bounds() {
    assert!(validate_length(MAX_DFT_SIZE).is_ok());
    assert!(matches!(validate_length(usize::MAX), Err(DftError::TooLarge(n)) if n == usize::MAX));
}

#[test]
fn error_messages() {
    assert_eq!(DftError::ZeroLength.message(), "DFT length must be positive (got 0)");
    assert_eq!(DftError::TooLarge(42).message(), "DFT length 42 exceeds maximum 67108864");
    assert_eq!(
        DftError::FactorizationFailed(120).message(),
        "Failed to factorize DFT length 120"
    );
    assert_eq!(
        DftError::NoPrimitiveRoot(7).message(),
        "No primitive root found for prime 7 (mathematically impossible)"
    );
    assert_eq!(
        DftError::FftError("length must be a power of two".to_string()).message(),
        "fft_rs error: length must be a power of two"
    );
}

#[test]
fn dft_handle() {
    let dft = DFT::new(vec![1i32, 2, 3]).unwrap();
    assert_eq!(dft.len(), 3);
    assert!(!dft.is_empty());
    assert_eq!(dft.input(), &[1, 2, 3]);
}

#[test]
fn plan_handle() {
    let plan = DFTPlan::<f64>::new(97).unwrap();
    assert_eq!(plan.n(), 97);
    assert!(matches!(plan.strategy(), TransformStrategy::Bluestein { m: 256 }));
    let plan = DFTPlan::<f64>::new(10).unwrap();
    assert!(matches!(plan.strategy(), TransformStrategy::PrimeFactor { n1: 2, n2: 5 }));
    let plan = DFTPlan::<f64>::new(32).unwrap();
    assert!(matches!(plan.strategy(), TransformStrategy::Radix2 { log2n: 5 }));
    assert!(matches!(DFTPlan::<f64>::new(0), Err(DftError::ZeroLength)));
}

#[test]
fn gcd_values() {
    assert_eq!(gcd(12, 18), 6);
    assert_eq!(gcd(0, 5), 5);
    assert_eq!(gcd(7, 0), 7);
    assert_eq!(gcd(17, 5), 1);
}

#[test]
fn crt_values() {
    assert_eq!(crt_coefficients(3, 5), (10, 6));
    assert_eq!(crt_coefficients(1, 4), (0, 1));
    assert_eq!(pfa_index_inverse(1, 2, 3, 5), 7);
    assert_eq!(pfa_index_inverse(0, 0, 3, 5), 0);
}

#[test]
fn pfa_permutation_values() {
    let mut buf: Vec<u32> = (0..6).collect();
    pfa_forward(&mut buf, 2, 3);
    // buf[m1 * 3 + m2] = input[m] with m = m1 (mod 2), m = m2 (mod 3)
    assert_eq!(buf, vec![0, 4, 2, 3, 1, 5]);
    pfa_inverse(&mut buf, 2, 3);
    assert_eq!(buf, (0..6).collect::<Vec<u32>>());
}

#[test]
fn pfa_twiddle_values() {
    assert_eq!(pfa_twiddle_multipliers(3, 5), (2, 2));
    assert_eq!(pfa_twiddle_multipliers(4, 7), (3, 2));
    assert_eq!(pfa_twiddle_exponent(2, 4, 3, 5), 4);
    assert_eq!(pfa_twiddle_exponent(0, 4, 3, 5), 0);
    // the products wrap around modulo 2^BITS before the remainder
    let big = usize::MAX;
    assert_eq!(
        pfa_twiddle_exponent(big, 2, 1, 7),
        big.wrapping_mul(2) % 7
    );
}

#[test]
fn bit_reversal_values() {
    assert_eq!(bit_reverse(1, 3), 4);
    assert_eq!(bit_reverse(3, 3), 6);
    assert_eq!(bit_reverse(6, 3), 3);
    let mut v: Vec<u32> = (0..8).collect();
    bit_reverse_permute(&mut v, 3);
    assert_eq!(v, vec![0, 4, 2, 6, 1, 5, 3, 7]);
    bit_reverse_permute(&mut v, 3);
    assert_eq!(v, (0..8).collect::<Vec<u32>>());
}

#[test]
fn primitive_root_exactly_for_primes() {
    for p in 0..2000usize {
        match primitive_root(p) {
            Some(g) => {
                assert!(is_prime(p), "p = {}", p);
                assert!(g < p || p == 2);
            }
            None => assert!(!is_prime(p), "p = {}", p),
        }
    }
    assert!(primitive_root(1_000_000_007).is_some());
}

#[test]
fn is_prime_exact_above_trial_table() {
    assert!(is_prime(41));
    assert!(!is_prime(1681)); // 41 * 41
    assert!(!is_prime(3_215_031_751)); // 151 * 751 * 28351, strong pseudoprime to 2, 3, 5, 7
    assert!(is_prime(4_294_967_291)); // largest prime below 2^32
    assert!(!is_prime(4_294_967_297)); // 641 * 6700417
    for n in 0..5000usize {
        let naive = n >= 2 && (2..n).all(|d| n % d != 0);
        assert_eq!(is_prime(n), naive, "n = {}", n);
    }
}

#[test]
fn primitive_root_has_order_p_minus_one() {
    for &p in &[3usize, 5, 7, 11, 13, 97, 1009, 7919] {
        let g = primitive_root(p).unwrap();
        let mut x = 1usize;
        for k in 1..p - 1 {
            x = x * g % p;
            assert_ne!(x, 1, "p = {}, k = {}", p, k);
        }
        // no smaller base has order p - 1
        for h in 2..g {
            let mut y = 1usize;
            let mut has_order = true;
            for _ in 1..p - 1 {
                y = y * h % p;
                if y == 1 {
                    has_order = false;
                    break;
                }
            }
            assert!(!has_order, "p = {}, h = {}", p, h);
        }
    }
}

#[test]
fn choose_strategy_largest_power_of_two() {
    let n = 1usize << (usize::BITS - 1);
    match choose_strategy(n).unwrap() {
        TransformStrategy::Radix2 { log2n } => assert_eq!(log2n, (usize::BITS - 1) as usize),
        _ => panic!("expected radix-2"),
    }
}
