use hamiltonian_paths::monomial::{split_tokens, survives_sieve};
use hamiltonian_paths::Symbol;

#[test]
fn symbol_keeps_terms_in_order() {
    let s = Symbol::new(vec!["b c", "a"]);
    assert_eq!(s.terms(), &vec!["b c".to_string(), "a".to_string()]);
    assert_eq!(Symbol::from_terms(vec!["b c".to_string(), "a".to_string()]), s);
}

#[test]
fn symbol_equality_is_ordered() {
    assert_ne!(Symbol::new(vec!["a", "b"]), Symbol::new(vec!["b", "a"]));
    assert_ne!(Symbol::new(vec!["a"]), Symbol::new(vec!["a", "a"]));
    assert_eq!(Symbol::new(vec!["a", "b"]), Symbol::new(vec!["a", "b"]));
}

#[test]
fn zero_when_terms_cancel_in_pairs() {
    assert!(Symbol::new(vec![]).is_zero());
    assert!(Symbol::new(vec!["a b", "c", "a b", "c"]).is_zero());
    assert!(!Symbol::new(vec!["a b"]).is_zero());
    assert!(!Symbol::new(vec!["a b", "a b", "a b"]).is_zero());
    assert!(!Symbol::new(vec!["a b", "b a"]).is_zero());
}

#[test]
fn tokens_are_runs_between_whitespace() {
    assert_eq!(split_tokens("  a bc\td \n"), vec!["a".to_string(), "bc".to_string(), "d".to_string()]);
    assert_eq!(split_tokens(""), Vec::<String>::new());
    assert_eq!(split_tokens("   "), Vec::<String>::new());
    assert_eq!(split_tokens("x"), vec!["x".to_string()]);
}

#[test]
fn survival_test_per_monomial() {
    let a = "a".to_string();
    assert!(survives_sieve(&"b c".to_string(), &a));
    assert!(!survives_sieve(&"b a".to_string(), &a));
    assert!(!survives_sieve(&"b c b".to_string(), &a));
    assert!(survives_sieve(&"".to_string(), &a));
}
