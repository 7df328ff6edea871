use hamiltonian_paths::error::decimal_string;
use hamiltonian_paths::{clean_up_data, PathError, Symbol};

#[test]
fn mismatch_message_names_both_lengths() {
    let data = vec![Symbol::new(vec!["b c"]), Symbol::new(vec!["c a"])];
    let labels = vec!["a".to_string(), "b".to_string(), "c".to_string()];
    let err = clean_up_data(&data, &labels).unwrap_err();
    assert_eq!(
        err.message(),
        "Data array does not coincide with labels array: data.len() = 2, labels.len() = 3"
    );
    assert_eq!(
        PathError::LengthMismatch(10, 0).message(),
        "Data array does not coincide with labels array: data.len() = 10, labels.len() = 0"
    );
}

#[test]
fn decimal_rendering() {
    assert_eq!(decimal_string(0), "0");
    assert_eq!(decimal_string(7), "7");
    assert_eq!(decimal_string(10), "10");
    assert_eq!(decimal_string(205), "205");
    assert_eq!(decimal_string(usize::MAX), usize::MAX.to_string());
}
