use hamiltonian_paths::{pretty_print_hamiltonian_paths, PathError, Symbol};

#[test]
fn report_lists_each_path() {
    let data = vec![Symbol::new(vec!["b c"]), Symbol::new(vec!["c a", "a c"])];
    let labels = vec!["a".to_string(), "b".to_string()];
    let out = pretty_print_hamiltonian_paths(&data, &labels).unwrap();
    assert_eq!(
        out,
        "Starting at a:\n\ta b c a\n\nStarting at b:\n\tb c a b\n\tb a c b\n\n"
    );
    assert!(out.lines().any(|l| l.trim_start() == "b a c b"));
}

#[test]
fn report_of_an_empty_symbol_is_its_header() {
    let data = vec![Symbol::new(vec![])];
    let labels = vec!["x".to_string()];
    assert_eq!(
        pretty_print_hamiltonian_paths(&data, &labels),
        Ok("Starting at x:\n\n".to_string())
    );
}

#[test]
fn report_of_nothing_is_empty() {
    assert_eq!(pretty_print_hamiltonian_paths(&vec![], &vec![]), Ok(String::new()));
}

#[test]
fn report_rejects_length_mismatch() {
    let data = vec![Symbol::new(vec!["b c"]), Symbol::new(vec!["c a"])];
    let labels = vec!["a".to_string(), "b".to_string(), "c".to_string()];
    assert_eq!(
        pretty_print_hamiltonian_paths(&data, &labels),
        Err(PathError::LengthMismatch(2, 3))
    );
}
