use hamiltonian_paths::{clean_up_data, PathError, Symbol};

#[test]
fn test_remove_nothing() {
    let data = vec![
        Symbol::new(vec!["b c"]),
        Symbol::new(vec!["c a"]),
        Symbol::new(vec!["a b"]),
    ];
    let labels = vec!["a".to_string(), "b".to_string(), "c".to_string()];

    let res = clean_up_data(&data, &labels);
    assert_eq!(
        res.unwrap(),
        vec![
            Symbol::new(vec!["b c"]),
            Symbol::new(vec!["c a"]),
            Symbol::new(vec!["a b"])
        ]
    );
}

#[test]
fn test_remove_matching_label() {
    let data = vec![
        Symbol::new(vec!["a b c"]),
        Symbol::new(vec!["c a"]),
        Symbol::new(vec!["a b c"]),
    ];
    let labels = vec!["a".to_string(), "b".to_string(), "c".to_string()];

    let res = clean_up_data(&data, &labels);
    assert_eq!(res.unwrap(), vec![Symbol::new(vec!["c a"])]);
}

#[test]
fn test_remove_duplicates() {
    let data = vec![
        Symbol::new(vec!["c b c"]),
        Symbol::new(vec!["c a c"]),
        Symbol::new(vec!["a b"]),
    ];
    let labels = vec!["a".to_string(), "b".to_string(), "c".to_string()];

    let res = clean_up_data(&data, &labels);
    assert_eq!(res.unwrap(), vec![Symbol::new(vec!["a b"])]);
}

#[test]
fn test_complex() {
    let data = vec![
        Symbol::new(vec!["b c"]),
        Symbol::new(vec!["c a c"]),
        Symbol::new(vec!["a b c"]),
    ];
    let labels = vec!["a".to_string(), "b".to_string(), "c".to_string()];

    let res = clean_up_data(&data, &labels);
    assert_eq!(res.unwrap(), vec![Symbol::new(vec!["b c"])]);
}

fn abc() -> Vec<String> {
    vec!["a".to_string(), "b".to_string(), "c".to_string()]
}

#[test]
fn sieve_rejects_length_mismatch() {
    let data = vec![Symbol::new(vec!["b c"]), Symbol::new(vec!["c a"])];
    assert_eq!(clean_up_data(&data, &abc()), Err(PathError::LengthMismatch(2, 3)));
}

#[test]
fn sieve_on_empty_input_is_empty() {
    assert_eq!(clean_up_data(&vec![], &vec![]), Ok(vec![]));
}

#[test]
fn sieve_filters_within_a_symbol_and_keeps_order() {
    let data = vec![
        Symbol::new(vec!["c b", "a c", "b c b", "b c"]),
        Symbol::new(vec!["a c", "c a"]),
    ];
    let labels = vec!["a".to_string(), "b".to_string()];
    let res = clean_up_data(&data, &labels).unwrap();
    assert_eq!(
        res,
        vec![Symbol::new(vec!["c b", "b c"]), Symbol::new(vec!["a c", "c a"])]
    );
}

#[test]
fn sieve_drops_symbols_that_cancel() {
    let data = vec![
        Symbol::new(vec!["b c", "b c"]),
        Symbol::new(vec!["c a", "a b c", "c a", "a c"]),
        Symbol::new(vec!["a b", "c", "a b"]),
    ];
    let res = clean_up_data(&data, &abc()).unwrap();
    assert_eq!(res, vec![Symbol::new(vec!["c a", "c a", "a c"])]);
}

#[test]
fn sieve_compares_whole_tokens() {
    let data = vec![Symbol::new(vec!["ab c", "b a"])];
    let labels = vec!["a".to_string()];
    let res = clean_up_data(&data, &labels).unwrap();
    assert_eq!(res, vec![Symbol::new(vec!["ab c"])]);
}

#[test]
fn sieve_splits_on_any_whitespace() {
    let data = vec![Symbol::new(vec!["b  c", "b\tb", " c\nd "])];
    let labels = vec!["a".to_string()];
    let res = clean_up_data(&data, &labels).unwrap();
    assert_eq!(res, vec![Symbol::new(vec!["b  c", " c\nd "])]);
}

#[test]
fn sieve_keeps_an_empty_monomial() {
    let data = vec![Symbol::new(vec![""]), Symbol::new(vec![])];
    let labels = vec!["a".to_string(), "b".to_string()];
    let res = clean_up_data(&data, &labels).unwrap();
    assert_eq!(res, vec![Symbol::new(vec![""])]);
}

#[test]
fn sieve_rejects_the_bare_start_label() {
    let data = vec![Symbol::new(vec!["a"])];
    let labels = vec!["a".to_string()];
    assert_eq!(clean_up_data(&data, &labels), Ok(vec![]));
}

#[test]
fn sieve_leaves_its_input_alone() {
    let data = vec![Symbol::new(vec!["a b", "b c"])];
    let labels = vec!["a".to_string()];
    let _ = clean_up_data(&data, &labels);
    assert_eq!(data, vec![Symbol::new(vec!["a b", "b c"])]);
}
