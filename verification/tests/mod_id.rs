use evemoddl::mod_id::{char_matches, mod_id_matches, resolve_mod_ids, ResolveError};

#[test]
fn matches_letters_case_insensitively() {
    let candidates = ["FancyMod".to_string()];

    let resolved = resolve_mod_ids(&["fancymod".to_string()], &candidates).unwrap();

    assert_eq!(resolved, ["FancyMod"]);
}

#[test]
fn matches_spaces_and_special_characters_with_hyphen_or_underscore() {
    let candidates = ["A B+C".to_string()];

    let hyphenated = resolve_mod_ids(&["A-B-C".to_string()], &candidates).unwrap();
    let underscored = resolve_mod_ids(&["A_B_C".to_string()], &candidates).unwrap();

    assert_eq!(hyphenated, ["A B+C"]);
    assert_eq!(underscored, ["A B+C"]);
}

#[test]
fn rejects_ambiguous_matches() {
    let candidates = ["A B".to_string(), "A-B".to_string()];

    let result = resolve_mod_ids(&["A_B".to_string()], &candidates);

    assert!(result.is_err());
}

#[test]
fn ambiguous_matches_are_listed_in_ascending_order() {
    let candidates = ["A-B".to_string(), "A B".to_string(), "Other".to_string()];

    match resolve_mod_ids(&["A_B".to_string()], &candidates) {
        Err(ResolveError::Ambiguous(id, found)) => {
            assert_eq!(id, "A_B");
            assert_eq!(found, ["A B", "A-B"]);
        }
        other => panic!("unexpected result: {:?}", other),
    }
}

#[test]
fn unknown_identifier_is_not_found() {
    let candidates = ["FancyMod".to_string()];

    match resolve_mod_ids(&["Fancy".to_string(), "FancyMod".to_string()], &candidates) {
        Err(ResolveError::NotFound(id)) => assert_eq!(id, "Fancy"),
        other => panic!("unexpected result: {:?}", other),
    }
}

#[test]
fn first_unresolvable_request_is_reported() {
    let candidates = ["A B".to_string(), "A-B".to_string()];

    match resolve_mod_ids(&["Missing".to_string(), "A_B".to_string()], &candidates) {
        Err(ResolveError::NotFound(id)) => assert_eq!(id, "Missing"),
        other => panic!("unexpected result: {:?}", other),
    }
}

#[test]
fn resolves_each_request_in_order() {
    let candidates = ["Beta".to_string(), "Alpha".to_string()];

    let resolved =
        resolve_mod_ids(&["beta".to_string(), "ALPHA".to_string(), "Beta".to_string()], &candidates)
            .unwrap();

    assert_eq!(resolved, ["Beta", "Alpha", "Beta"]);
}

#[test]
fn empty_request_resolves_to_nothing() {
    let candidates = ["Beta".to_string()];

    let resolved = resolve_mod_ids(&[], &candidates).unwrap();

    assert!(resolved.is_empty());
}

#[test]
fn digits_match_only_themselves() {
    assert!(char_matches('7', '7'));
    assert!(!char_matches('-', '7'));
    assert!(!char_matches('8', '7'));
}

#[test]
fn non_ascii_chars_count_as_separators() {
    assert!(char_matches('é', 'é'));
    assert!(!char_matches('É', 'é'));
    assert!(char_matches('-', 'é'));
    assert!(char_matches('_', 'é'));
}

#[test]
fn symbols_match_themselves_hyphen_or_underscore() {
    assert!(char_matches('+', '+'));
    assert!(char_matches('-', '+'));
    assert!(char_matches('_', ' '));
    assert!(!char_matches('x', ' '));
}

#[test]
fn identifiers_of_different_length_do_not_match() {
    assert!(!mod_id_matches("abc", "ab"));
    assert!(mod_id_matches("AbC", "abc"));
    assert!(mod_id_matches("", ""));
}

#[test]
fn resolution_does_not_depend_on_candidate_order() {
    let forward = ["A B".to_string(), "Zed".to_string(), "A-B".to_string(), "a_b".to_string()];
    let backward = ["a_b".to_string(), "A-B".to_string(), "Zed".to_string(), "A B".to_string()];

    assert_eq!(
        resolve_mod_ids(&["zed".to_string()], &forward).unwrap(),
        resolve_mod_ids(&["zed".to_string()], &backward).unwrap()
    );
    match (
        resolve_mod_ids(&["A_B".to_string()], &forward),
        resolve_mod_ids(&["A_B".to_string()], &backward),
    ) {
        (Err(ResolveError::Ambiguous(a, m1)), Err(ResolveError::Ambiguous(b, m2))) => {
            assert_eq!(a, b);
            assert_eq!(m1, m2);
        }
        _ => panic!("expected the same ambiguity"),
    }
}
