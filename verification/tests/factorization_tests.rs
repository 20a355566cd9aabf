use ft_winograd::factorization::{
    choose_strategy, factorize, is_power_of_two, is_prime, next_power_of_two, primitive_root,
    TransformStrategy,
};

#[test]
fn test_factorize_primes() {
    assert_eq!(factorize(2), vec![(2, 1)]);
    assert_eq!(factorize(7), vec![(7, 1)]);
}

#[test]
fn test_factorize_composites() {
    assert_eq!(factorize(6), vec![(2, 1), (3, 1)]);
    assert_eq!(factorize(60), vec![(2, 2), (3, 1), (5, 1)]);
}

#[test]
fn test_is_prime() {
    assert!(is_prime(97));
    assert!(is_prime(2));
    assert!(is_prime(3));
    assert!(is_prime(5));
    assert!(is_prime(7));
    assert!(is_prime(11));
    assert!(is_prime(13));
    assert!(is_prime(17));
    assert!(!is_prime(100));
}

#[test]
fn test_primitive_root() {
    assert_eq!(primitive_root(3), Some(2));
    assert_eq!(primitive_root(5), Some(2));
}

#[test]
fn test_choose_strategy_power_of_two() {
    let s = choose_strategy(1024).unwrap();
    assert!(matches!(s, TransformStrategy::Radix2 { log2n: 10 }));
}

#[test]
fn test_choose_strategy_small_prime() {
    let s = choose_strategy(5).unwrap();
    assert!(matches!(s, TransformStrategy::WinogradShort { n: 5 }));
}

#[test]
fn test_choose_strategy_large_prime() {
    let s = choose_strategy(97).unwrap();
    assert!(matches!(s, TransformStrategy::Bluestein { .. }));
}

#[test]
fn test_choose_strategy_coprime() {
    let s = choose_strategy(15).unwrap();
    assert!(matches!(s, TransformStrategy::PrimeFactor { .. }));
}
