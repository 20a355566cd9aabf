use ft_winograd::error::{validate_length, DftError, MAX_DFT_SIZE};

#[test]
fn test_validate_length_zero() {
    assert!(matches!(validate_length(0), Err(DftError::ZeroLength)));
}

#[test]
fn test_validate_length_too_large() {
    assert!(matches!(
        validate_length(MAX_DFT_SIZE + 1),
        Err(DftError::TooLarge(_))
    ));
}

#[test]
fn test_validate_length_ok_power_of_two() {
    assert!(validate_length(1).is_ok());
    assert!(validate_length(1024).is_ok());
}

#[test]
fn test_validate_length_ok_arbitrary() {
    assert!(validate_length(3).is_ok());
    assert!(validate_length(1234).is_ok());
    assert!(validate_length(99999).is_ok());
}

#[test]
fn test_display_errors() {
    assert!(DftError::ZeroLength.message().contains("0"));
    assert!(DftError::TooLarge(42).message().contains("42"));
}
