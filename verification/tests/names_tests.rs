use oxytrouille::names::{mk_names_str, sort_names};
use oxytrouille::normalize::name_eq;

#[test]
fn names_line_is_sorted_and_comma_separated() {
    let names = vec!["riri".to_owned(), "mood".to_owned(), "tata".to_owned()];
    assert_eq!(mk_names_str(&names), "mood, riri, tata");
}

#[test]
fn names_line_edge_cases() {
    assert_eq!(mk_names_str(&Vec::new()), "");
    assert_eq!(mk_names_str(&vec!["solo".to_owned()]), "solo");
    let dup = vec!["b".to_owned(), "a".to_owned(), "b".to_owned()];
    assert_eq!(mk_names_str(&dup), "a, b, b");
}

#[test]
fn sorting_is_lexicographic_by_code_point() {
    let names = vec!["ab".to_owned(), "a".to_owned(), "b".to_owned(), "aa".to_owned()];
    let sorted = sort_names(&names);
    assert_eq!(
        sorted,
        vec!["a".to_owned(), "aa".to_owned(), "ab".to_owned(), "b".to_owned()]
    );
}

#[test]
fn normalization_folds_case_and_diacritics() {
    assert!(name_eq("MOOD", "mood"));
    assert!(name_eq("café", "cafe"));
    assert!(name_eq("Señor", "senor"));
    assert!(!name_eq("mood", "moo"));
    assert!(!name_eq("a", "b"));
}
