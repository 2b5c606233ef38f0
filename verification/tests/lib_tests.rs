use constraint_theory_core::{CTErr, CTResult, VERSION, VERSION_MAJOR, VERSION_MINOR, VERSION_PATCH};

#[test]
fn test_version() {
    assert!(!VERSION.is_empty());
    assert_eq!(VERSION_MAJOR, 2);
    assert_eq!(VERSION_MINOR, 2);
    assert_eq!(VERSION_PATCH, 0);
}

#[test]
fn test_cterr_display() {
    assert!(!CTErr::InvalidDimension.to_string().is_empty());
    assert!(!CTErr::ManifoldEmpty.to_string().is_empty());
    assert!(!CTErr::NumericalInstability.to_string().is_empty());
    assert!(!CTErr::ZeroVector.to_string().is_empty());
    assert!(!CTErr::NaNInput.to_string().is_empty());
    assert!(!CTErr::InfinityInput.to_string().is_empty());
    assert!(!CTErr::BufferSizeMismatch.to_string().is_empty());
    assert!(!CTErr::Overflow.to_string().is_empty());
    assert!(!CTErr::DivisionByZero.to_string().is_empty());
    assert!(!CTErr::InvalidDensity.to_string().is_empty());
    assert!(!CTErr::InvalidThreshold.to_string().is_empty());
}

#[test]
fn test_cterr_actionable_messages() {
    let zero_msg = CTErr::ZeroVector.to_string();
    assert!(zero_msg.contains("Provide"), "Error message should suggest action");
    let nan_msg = CTErr::NaNInput.to_string();
    assert!(nan_msg.contains("Ensure"), "Error message should suggest action");
    let density_msg = CTErr::InvalidDensity.to_string();
    assert!(density_msg.contains("Recommended"), "Error message should provide guidance");
}

#[test]
fn version_string_matches_components() {
    assert_eq!(VERSION, format!("{}.{}.{}", VERSION_MAJOR, VERSION_MINOR, VERSION_PATCH));
    let r: CTResult<u8> = Err(CTErr::Overflow);
    assert_eq!(r, Err(CTErr::Overflow));
    assert_eq!(
        CTErr::InvalidThreshold.to_string(),
        "Invalid threshold - must be between 0.0 and 1.0 inclusive."
    );
}
