use ft_winograd::bluestein::{bluestein_memory_estimate, COMPLEX64_BYTES};

#[test]
fn test_bluestein_memory_estimate() {
    let (m, bytes) = bluestein_memory_estimate(1000);
    assert_eq!(m, 2048); // next_pow2(1999) = 2048
    assert_eq!(bytes, 2048 * 16); // Complex64 = 16 bytes
}

#[test]
fn bluestein_size_small_lengths() {
    assert_eq!(bluestein_memory_estimate(1), (1, COMPLEX64_BYTES));
    assert_eq!(bluestein_memory_estimate(2), (4, 4 * COMPLEX64_BYTES));
    assert_eq!(bluestein_memory_estimate(97), (256, 256 * COMPLEX64_BYTES));
    // 2n - 1 = 1023 -> 1024; 2n - 1 = 1025 -> 2048
    assert_eq!(bluestein_memory_estimate(512).0, 1024);
    assert_eq!(bluestein_memory_estimate(513).0, 2048);
}
