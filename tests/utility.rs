use std::collections::hash_map::RandomState;
use std::hash::{BuildHasher, Hash, Hasher};

use trash::utility::{get_percent_encoded_value, normalize_string, percent_encoded_equality, percent_encoded_hash};

fn hash<State>(value: &[u8], state: &State, case_sensitive: bool) -> u64
where
    State: BuildHasher,
{
    let mut hasher = state.build_hasher();
    percent_encoded_hash(value, case_sensitive).hash(&mut hasher);
    hasher.finish()
}

fn compare_hashes<State>(left: &[u8], right: &[u8], state: &State, case_sensitive: bool) -> bool
where
    State: BuildHasher,
{
    let left_hash = hash(left, state, case_sensitive);
    let right_hash = hash(right, state, case_sensitive);
    left_hash == right_hash
}

#[test]
fn test_equality() {
    // Case sensitive

    assert!(percent_encoded_equality(b"abc", b"abc", true));
    assert!(percent_encoded_equality(b"abc", b"%61bc", true));
    assert!(percent_encoded_equality(b"MNO", b"%4DNO", true));
    assert!(percent_encoded_equality(b"MNO", b"%4dNO", true));

    assert!(!percent_encoded_equality(b"abc", b"xyz", true));
    assert!(!percent_encoded_equality(b"abc", b"Abc", true));
    assert!(!percent_encoded_equality(b"abc", b"%41bc", true));
    assert!(!percent_encoded_equality(b"/", b"%2F", true));

    // Case insensitive

    assert!(percent_encoded_equality(b"abc", b"abc", false));
    assert!(percent_encoded_equality(b"abc", b"ABC", false));
    assert!(percent_encoded_equality(b"MNO", b"%4DNO", false));
    assert!(percent_encoded_equality(b"MNO", b"%4dNO", false));
    assert!(percent_encoded_equality(b"abc", b"%61bc", false));
    assert!(percent_encoded_equality(b"abc", b"%41bc", false));

    assert!(!percent_encoded_equality(b"abc", b"xyz", false));
    assert!(!percent_encoded_equality(b"/", b"%2F", false));
}

#[test]
fn test_hash() {
    let state = RandomState::new();

    // Case sensitive

    assert!(compare_hashes(b"abc", b"abc", &state, true));
    assert!(compare_hashes(b"abc", b"%61bc", &state, true));
    assert!(compare_hashes(b"MNO", b"%4DNO", &state, true));
    assert!(compare_hashes(b"MNO", b"%4dNO", &state, true));

    assert!(!compare_hashes(b"abc", b"xyz", &state, true));
    assert!(!compare_hashes(b"abc", b"Abc", &state, true));
    assert!(!compare_hashes(b"abc", b"%41bc", &state, true));
    assert!(!compare_hashes(b"/", b"%2F", &state, true));

    // Case insensitive

    assert!(compare_hashes(b"abc", b"abc", &state, false));
    assert!(compare_hashes(b"abc", b"ABC", &state, false));
    assert!(compare_hashes(b"MNO", b"%4DNO", &state, false));
    assert!(compare_hashes(b"MNO", b"%4dNO", &state, false));
    assert!(compare_hashes(b"abc", b"%61bc", &state, false));
    assert!(compare_hashes(b"abc", b"%41bc", &state, false));

    assert!(!compare_hashes(b"abc", b"xyz", &state, false));
    assert!(!compare_hashes(b"/", b"%2F", &state, false));
}

#[test]
fn percent_value_of_escapes() {
    assert_eq!(get_percent_encoded_value(Some(b'4'), Some(b'1')), Ok((0x41, true)));
    assert_eq!(get_percent_encoded_value(Some(b'f'), Some(b'F')), Ok((0xff, false)));
    assert_eq!(get_percent_encoded_value(Some(b'0'), Some(b'a')), Ok((0x0a, false)));
    assert_eq!(get_percent_encoded_value(Some(b'z'), Some(b'1')), Err(()));
    assert_eq!(get_percent_encoded_value(Some(b'1'), None), Err(()));
    assert_eq!(get_percent_encoded_value(None, None), Err(()));
}

#[test]
fn normalize_string_decodes_and_upcases() {
    assert_eq!(normalize_string(b"t%65st/%ff", true), b"test/%FF".to_vec());
    assert_eq!(normalize_string(b"AbC%2f", false), b"abc%2F".to_vec());
    assert_eq!(normalize_string(b"", true), Vec::<u8>::new());
}

#[test]
fn hash_bytes_are_canonical() {
    assert_eq!(percent_encoded_hash(b"%41bc", false), b"abc".to_vec());
    assert_eq!(percent_encoded_hash(b"%41bc", true), b"Abc".to_vec());
    assert_eq!(percent_encoded_hash(b"%2f", true), b"%2F".to_vec());
}

#[test]
fn well_encoded_checks_escapes() {
    assert!(trash::utility::is_well_encoded(b"a%41b"));
    assert!(trash::utility::is_well_encoded(b""));
    assert!(!trash::utility::is_well_encoded(b"%4"));
    assert!(!trash::utility::is_well_encoded(b"%zz"));
}
