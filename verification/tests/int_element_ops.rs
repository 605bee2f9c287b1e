//! The byte-level bit operations on single elements, exercised a
//! second time through the same public entry points.

use bitstring::bigendian::element_contains;
use bitstring::bigendian::element_flip;
use bitstring::bigendian::element_get;
use bitstring::bigendian::element_inc;
use bitstring::bigendian::element_is_false_from;
use bitstring::bigendian::element_is_true_from;
use bitstring::bigendian::element_set;
use bitstring::bigendian::element_set_false_from;
use bitstring::bigendian::element_set_true_from;
use bitstring::bigendian::element_shared_prefix_len;


#[test]
fn tests_test_u8_element_inc() {
    assert_eq!(element_inc(0b0000_0000, 0), (0b0000_0001, false));
    assert_eq!(element_inc(0b0000_0000, 4), (0b0000_0001, false));
    assert_eq!(element_inc(0b0000_0000, 8), (0b0000_0000, true));
    assert_eq!(element_inc(0b0000_1000, 0), (0b0000_1001, false));
    assert_eq!(element_inc(0b0000_1000, 4), (0b0000_1001, false));
    assert_eq!(element_inc(0b0000_1000, 8), (0b0000_1000, true));
    assert_eq!(element_inc(0b0000_1111, 0), (0b0001_0000, false));
    assert_eq!(element_inc(0b0000_1111, 4), (0b0000_0000, true));
    assert_eq!(element_inc(0b0000_1111, 8), (0b0000_1111, true));
    assert_eq!(element_inc(0b0001_1111, 0), (0b0010_0000, false));
    assert_eq!(element_inc(0b0001_1111, 4), (0b0001_0000, true));
    assert_eq!(element_inc(0b0001_1111, 8), (0b0001_1111, true));
    assert_eq!(element_inc(0b1111_1111, 0), (0b0000_0000, true));
    assert_eq!(element_inc(0b1111_1111, 4), (0b1111_0000, true));
    assert_eq!(element_inc(0b1111_1111, 8), (0b1111_1111, true));
}

#[test]
fn tests_test_u8_element_set() {
    assert_eq!(element_set(0b0000_0000, 0, true), 0b1000_0000);
    assert_eq!(element_set(0b1000_0000, 0, true), 0b1000_0000);
    assert_eq!(element_set(0b0000_0000, 4, true), 0b0000_1000);
    assert_eq!(element_set(0b0000_1000, 4, true), 0b0000_1000);
    assert_eq!(element_set(0b0000_0000, 7, true), 0b0000_0001);
    assert_eq!(element_set(0b0000_0001, 7, true), 0b0000_0001);

    assert_eq!(element_set(0b1000_0000, 0, false), 0b0000_0000);
    assert_eq!(element_set(0b0000_0000, 0, false), 0b0000_0000);
    assert_eq!(element_set(0b0000_1000, 4, false), 0b0000_0000);
    assert_eq!(element_set(0b0000_0000, 4, false), 0b0000_0000);
    assert_eq!(element_set(0b0000_0001, 7, false), 0b0000_0000);
    assert_eq!(element_set(0b0000_0000, 7, false), 0b0000_0000);
}

#[test]
fn tests_test_u8_element_flip() {
    assert_eq!(element_flip(0b0000_0000, 0), 0b1000_0000);
    assert_eq!(element_flip(0b1000_0000, 0), 0b0000_0000);
    assert_eq!(element_flip(0b0000_0000, 4), 0b0000_1000);
    assert_eq!(element_flip(0b0000_1000, 4), 0b0000_0000);
    assert_eq!(element_flip(0b0000_0000, 7), 0b0000_0001);
    assert_eq!(element_flip(0b0000_0001, 7), 0b0000_0000);
}

#[test]
fn tests_test_u8_element_shared_prefix_len() {
    assert_eq!(element_shared_prefix_len(0b0000_0000, 0b0000_0000, 0), 0);
    assert_eq!(element_shared_prefix_len(0b0000_0000, 0b1000_0000, 8), 0);
    assert_eq!(element_shared_prefix_len(0b0000_0000, 0b0000_0000, 1), 1);
    assert_eq!(element_shared_prefix_len(0b0000_0000, 0b0100_0000, 8), 1);
    assert_eq!(element_shared_prefix_len(0b1100_0000, 0b1100_0001, 7), 7);
    assert_eq!(element_shared_prefix_len(0b1100_0000, 0b1100_0001, 8), 7);
    assert_eq!(element_shared_prefix_len(0b0000_0000, 0b0000_0000, 8), 8);
    assert_eq!(element_shared_prefix_len(0b1100_0001, 0b1100_0001, 8), 8);
    assert_eq!(element_shared_prefix_len(0b1111_1111, 0b1111_1111, 8), 8);
}

#[test]
fn tests_test_u8_element_get() {
    assert_eq!(element_get(0b0000_0000, 0), false);
    assert_eq!(element_get(0b1000_0000, 0), true);
    assert_eq!(element_get(0b0000_0000, 1), false);
    assert_eq!(element_get(0b0100_0000, 1), true);
    assert_eq!(element_get(0b0000_0000, 2), false);
    assert_eq!(element_get(0b0010_0000, 2), true);
    assert_eq!(element_get(0b0000_0000, 3), false);
    assert_eq!(element_get(0b0001_0000, 3), true);
    assert_eq!(element_get(0b0000_0000, 6), false);
    assert_eq!(element_get(0b0000_0010, 6), true);
    assert_eq!(element_get(0b0000_0000, 7), false);
    assert_eq!(element_get(0b0000_0001, 7), true);
}

#[test]
fn tests_test_u8_element_is_false_from() {
    assert!(element_is_false_from(0b0000_0000, 0));
    assert!(!element_is_false_from(0b1111_1111, 0));
    assert!(element_is_false_from(0b0000_0000, 1));
    assert!(element_is_false_from(0b1000_0000, 1));
    assert!(!element_is_false_from(0b1111_1111, 1));
    assert!(element_is_false_from(0b0001_0000, 4));
    assert!(element_is_false_from(0b1111_0000, 4));
    assert!(!element_is_false_from(0b0000_1111, 4));
    assert!(element_is_false_from(0b1111_1110, 7));
    assert!(!element_is_false_from(0b1111_1111, 7));
    assert!(element_is_false_from(0b1111_1111, 8));
}

#[test]
fn tests_test_u8_element_set_false_from() {
    assert_eq!(
        element_set_false_from(0b0000_0000, 0),
        0b0000_0000
    );
    assert_eq!(
        element_set_false_from(0b1111_1111, 0),
        0b0000_0000
    );
    assert_eq!(
        element_set_false_from(0b1111_0000, 4),
        0b1111_0000
    );
    assert_eq!(
        element_set_false_from(0b1111_1111, 4),
        0b1111_0000
    );
    assert_eq!(
        element_set_false_from(0b0000_1111, 8),
        0b0000_1111
    );
    assert_eq!(
        element_set_false_from(0b1111_0000, 8),
        0b1111_0000
    );
    assert_eq!(
        element_set_false_from(0b1111_1111, 8),
        0b1111_1111
    );
}

#[test]
fn tests_test_u8_element_is_true_from() {
    assert!(element_is_true_from(0b1111_1111, 0));
    assert!(!element_is_true_from(0b0000_0000, 0));
    assert!(element_is_true_from(0b0111_1111, 1));
    assert!(element_is_true_from(0b1111_1111, 1));
    assert!(!element_is_true_from(0b1000_0000, 1));
    assert!(element_is_true_from(0b1110_1111, 4));
    assert!(element_is_true_from(0b0000_1111, 4));
    assert!(!element_is_true_from(0b1111_0000, 4));
    assert!(element_is_true_from(0b0000_0001, 7));
    assert!(!element_is_true_from(0b0000_0000, 7));
    assert!(element_is_true_from(0b0000_0000, 8));
}

#[test]
fn tests_test_u8_element_set_true_from() {
    assert_eq!(
        element_set_true_from(0b0000_0000, 0),
        0b1111_1111
    );
    assert_eq!(
        element_set_true_from(0b1111_1111, 0),
        0b1111_1111
    );
    assert_eq!(
        element_set_true_from(0b0000_0000, 4),
        0b0000_1111
    );
    assert_eq!(
        element_set_true_from(0b0000_1111, 4),
        0b0000_1111
    );
    assert_eq!(
        element_set_true_from(0b0000_1111, 8),
        0b0000_1111
    );
    assert_eq!(
        element_set_true_from(0b1111_0000, 8),
        0b1111_0000
    );
    assert_eq!(
        element_set_true_from(0b0000_0000, 8),
        0b0000_0000
    );
}

#[test]
fn tests_test_u8_element_contains() {
    assert!(element_contains(0b0000_0000, 0, 0b0000_0000));
    assert!(element_contains(0b1000_0000, 0, 0b0000_0000));
    assert!(element_contains(0b0000_0000, 0, 0b1000_0000));
    assert!(element_contains(0b0000_1000, 0, 0b0000_0000));
    assert!(element_contains(0b0000_0000, 0, 0b1000_1000));
    assert!(element_contains(0b0000_0001, 0, 0b0000_0000));
    assert!(element_contains(0b0000_0000, 0, 0b1000_0001));
    assert!(element_contains(0b0000_0000, 1, 0b0111_1111));
    assert!(element_contains(0b1111_1111, 1, 0b1000_0000));
    assert!(element_contains(0b0000_0000, 1, 0b0111_1111));
    assert!(element_contains(0b1111_1111, 1, 0b1000_0000));
    assert!(element_contains(0b0000_0000, 7, 0b0000_0001));
    assert!(element_contains(0b1111_1111, 7, 0b1111_1110));
    assert!(!element_contains(0b0000_0000, 7, 0b1000_0001));
    assert!(!element_contains(0b0000_0000, 7, 0b0000_1001));
    assert!(!element_contains(0b0111_1111, 7, 0b1111_1110));
    assert!(!element_contains(0b1111_1111, 7, 0b1111_0110));
    assert!(element_contains(0b0000_0000, 8, 0b0000_0000));
    assert!(element_contains(0b1111_1111, 8, 0b1111_1111));
    assert!(!element_contains(0b0000_0000, 8, 0b0000_0001));
    assert!(!element_contains(0b0000_0000, 8, 0b1000_0000));
    assert!(!element_contains(0b1111_1111, 8, 0b1111_1110));
    assert!(!element_contains(0b1111_1111, 8, 0b0111_1111));
}
