use evemoddl::format::{decimal_string, download_url, mirror_url};
use evemoddl::hashing::{content_xxhash, verify_xxhash};

#[test]
fn verifies_matching_xxhash() {
    let result = verify_xxhash(b"hello", &["26c7827d889f6da3".to_string()]);

    assert!(result.is_ok());
}

#[test]
fn rejects_mismatched_xxhash() {
    let result = verify_xxhash(b"hello", &["0000000000000000".to_string()]);

    assert!(result.is_err());
}

#[test]
fn hash_is_sixteen_lower_case_hex_digits() {
    assert_eq!(content_xxhash(b"hello"), "26c7827d889f6da3");
    assert_eq!(content_xxhash(b"").len(), 16);
}

#[test]
fn expected_hashes_are_trimmed_and_case_insensitive() {
    let result = verify_xxhash(
        b"hello",
        &["nope".to_string(), "  26C7827D889F6DA3\n".to_string()],
    );

    assert_eq!(result.ok().unwrap(), "26c7827d889f6da3");
}

#[test]
fn mismatch_reports_actual_and_expected_hashes() {
    match verify_xxhash(b"hello", &["abc".to_string()]) {
        Err(e) => {
            assert_eq!(e.actual, "26c7827d889f6da3");
            assert_eq!(e.expected, ["abc"]);
        }
        Ok(_) => panic!("hash should not match"),
    }
}

#[test]
fn urls_drop_trailing_slashes_of_the_mirror() {
    assert_eq!(
        mirror_url("https://example.org/mirror//", "everest_update.yaml"),
        "https://example.org/mirror/everest_update.yaml"
    );
    assert_eq!(download_url("https://gamebanana.com/mmdl", 12345), "https://gamebanana.com/mmdl/12345");
    assert_eq!(decimal_string(0), "0");
    assert_eq!(decimal_string(4294967295), "4294967295");
}
