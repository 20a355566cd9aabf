use ft_winograd::fft_arbitrary::DFT;
use ft_winograd::plan::DFTPlan;

#[test]
fn test_dft_rejects_zero_length() {
    assert!(DFT::<f64>::new(vec![]).is_err());
}

#[test]
fn test_from_slice() {
    let slice: &[f64] = &[1.0, 2.0, 3.0, 4.0, 5.0];
    let dft = DFT::from_slice(slice).unwrap();
    assert_eq!(dft.len(), 5);
}
