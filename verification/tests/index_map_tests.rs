use ft_winograd::index_map::{crt_coefficients, pfa_forward, pfa_index_forward, pfa_index_inverse, pfa_inverse};

fn approx_eq(a: (f64, f64), b: (f64, f64), eps: f64) -> bool {
    (a.0 - b.0).abs() < eps && (a.1 - b.1).abs() < eps
}

#[test]
fn test_crt_coefficients() {
    let (c1, c2) = crt_coefficients(3, 5);
    // c1 ≡ 1 (mod 3), c1 ≡ 0 (mod 5)
    assert_eq!(c1 % 3, 1);
    assert_eq!(c2 % 3, 0);
    assert_eq!(c1 % 5, 0);
    assert_eq!(c2 % 5, 1);
}

#[test]
fn test_pfa_index_roundtrip() {
    let (_c1, _c2) = crt_coefficients(3, 5);
    let n = 15;
    for m in 0..n {
        let (m1, m2) = pfa_index_forward(m, 3, 5);
        let m_back = pfa_index_inverse(m1, m2, 3, 5);
        assert_eq!(m_back, m, "roundtrip failed for m={}", m);
    }
}

#[test]
fn test_pfa_forward_inverse_roundtrip() {
    let data: Vec<(f64, f64)> = (0..15).map(|i| (i as f64, 0.0)).collect();
    let mut buf = data.clone();
    pfa_forward(&mut buf, 3, 5);
    pfa_inverse(&mut buf, 3, 5);
    for i in 0..15 {
        assert!(approx_eq(buf[i], data[i], 1e-10));
    }
}
