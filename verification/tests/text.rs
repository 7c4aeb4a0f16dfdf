use tap_escrow_manager::text::{contains_bytes, mentions};

#[test]
fn phrase_is_found_anywhere() {
    assert!(mentions("missing block", "missing block"));
    assert!(mentions("Store error: missing block: 123", "missing block"));
    assert!(mentions("x: no block with that hash found", "no block with that hash found"));
    assert!(mentions("anything", ""));
    assert!(mentions("", ""));
}

#[test]
fn phrase_is_not_found_where_it_is_not() {
    assert!(!mentions("missing  block", "missing block"));
    assert!(!mentions("Missing block", "missing block"));
    assert!(!mentions("missing bloc", "missing block"));
    assert!(!mentions("", "missing block"));
}

#[test]
fn bytes_are_found() {
    assert!(contains_bytes(&[1, 2, 3, 4], &[2, 3]));
    assert!(contains_bytes(&[1, 2, 3, 4], &[3, 4]));
    assert!(contains_bytes(&[1, 1, 1, 2], &[1, 1, 2]));
    assert!(!contains_bytes(&[1, 2, 3, 4], &[2, 4]));
    assert!(!contains_bytes(&[1, 2], &[1, 2, 3]));
}
