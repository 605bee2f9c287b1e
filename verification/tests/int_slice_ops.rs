//! The byte-level bit operations on byte sequences, exercised a
//! second time through the same public entry points.

use bitstring::bigendian::slice_contains;
use bitstring::bigendian::slice_flip;
use bitstring::bigendian::slice_get;
use bitstring::bigendian::slice_inc;
use bitstring::bigendian::slice_is_false_from;
use bitstring::bigendian::slice_is_true_from;
use bitstring::bigendian::slice_set;
use bitstring::bigendian::slice_set_false_from;
use bitstring::bigendian::slice_set_true_from;
use bitstring::bigendian::slice_shared_prefix_len;


fn u8_slice_inc(mut slice: Vec<u8>, prefix: usize) -> (bool, Vec<u8>) {
    let overflow = slice_inc(&mut slice, prefix);
    (overflow, slice)
}

fn u8_slice_set(mut slice: Vec<u8>, ndx: usize, bit: bool) -> Vec<u8> {
    slice_set(&mut slice, ndx, bit);
    slice
}

fn u8_slice_flip(mut slice: Vec<u8>, ndx: usize) -> Vec<u8> {
    slice_flip(&mut slice, ndx);
    slice
}

fn u8_slice_set_false_from(mut slice: Vec<u8>, ndx: usize) -> Vec<u8> {
    slice_set_false_from(&mut slice, ndx);
    slice
}

fn u8_slice_set_true_from(mut slice: Vec<u8>, ndx: usize) -> Vec<u8> {
    slice_set_true_from(&mut slice, ndx);
    slice
}

#[test]
fn tests_test_u8_slice_inc() {
    // make sure overflow doesn't change the fixed prefix
    assert_eq!(
        u8_slice_inc(vec![0b0000_0000, 0b0000_0000], 16),
        (true, vec![0b0000_0000, 0b0000_0000])
    );
    assert_eq!(
        u8_slice_inc(vec![0b0000_0000, 0b0000_0000], 15),
        (false, vec![0b0000_0000, 0b0000_0001]),
    );
    assert_eq!(
        u8_slice_inc(vec![0b0000_0000, 0b0000_0001], 15),
        (true, vec![0b0000_0000, 0b0000_0000]),
    );
    assert_eq!(
        u8_slice_inc(vec![0b0000_0000, 0b0000_1011], 15),
        (true, vec![0b0000_0000, 0b0000_1010]),
    );
    assert_eq!(
        u8_slice_inc(vec![0b0000_0000, 0b0000_1111], 15),
        (true, vec![0b0000_0000, 0b0000_1110]),
    );
    assert_eq!(
        u8_slice_inc(vec![0b0000_0000, 0b1111_1111], 15),
        (true, vec![0b0000_0000, 0b1111_1110]),
    );
    assert_eq!(
        u8_slice_inc(vec![0b0000_0001, 0b1111_1111], 15),
        (true, vec![0b0000_0001, 0b1111_1110]),
    );
    assert_eq!(
        u8_slice_inc(vec![0b0000_0000, 0b0000_0000], 8),
        (false, vec![0b0000_0000, 0b0000_0001]),
    );
    assert_eq!(
        u8_slice_inc(vec![0b0000_0000, 0b1111_1111], 8),
        (true, vec![0b0000_0000, 0b0000_0000]),
    );
    assert_eq!(
        u8_slice_inc(vec![0b0000_0001, 0b1111_1111], 8),
        (true, vec![0b0000_0001, 0b0000_0000]),
    );
    assert_eq!(
        u8_slice_inc(vec![0b0000_0000, 0b0000_0000], 0),
        (false, vec![0b0000_0000, 0b0000_0001]),
    );
    assert_eq!(
        u8_slice_inc(vec![0b1111_1111, 0b1111_1111], 0),
        (true, vec![0b0000_0000, 0b0000_0000]),
    );
}

#[test]
fn tests_test_u8_slice_get() {
    assert!(!slice_get(&vec![0, 0b0000_0000], 15));
    assert!(slice_get(&vec![0, 0b0000_0001], 15));
    assert!(!slice_get(&vec![0, 0b0000_0000], 14));
    assert!(slice_get(&vec![0, 0b0000_0010], 14));
    assert!(!slice_get(&vec![0, 0b0000_0000], 8));
    assert!(slice_get(&vec![0, 0b1000_0000], 8));
    assert!(!slice_get(&vec![0b0000_0000, 0], 7));
    assert!(slice_get(&vec![0b0000_0001, 0], 7));
    assert!(!slice_get(&vec![0b0000_0000, 0], 1));
    assert!(slice_get(&vec![0b0100_0000, 0], 1));
    assert!(!slice_get(&vec![0b0000_0000, 0], 0));
    assert!(slice_get(&vec![0b1000_0000, 0], 0));
}

#[test]
fn tests_test_u8_slice_set() {
    assert_eq!(u8_slice_set(vec![0, 0b0000_0000], 15, true), vec![0, 0b0000_0001]);
    assert_eq!(u8_slice_set(vec![0, 0b0000_0001], 15, false), vec![0, 0b0000_0000]);
    assert_eq!(u8_slice_set(vec![!0, 0b0000_0001], 15, true), vec![!0, 0b0000_0001]);
    assert_eq!(u8_slice_set(vec![!0, 0b0000_0000], 15, false), vec![!0, 0b0000_0000]);
    assert_eq!(u8_slice_set(vec![0, 0b0000_0000], 14, true), vec![0, 0b0000_0010]);
    assert_eq!(u8_slice_set(vec![0, 0b0000_0010], 14, false), vec![0, 0b0000_0000]);
    assert_eq!(u8_slice_set(vec![!0, 0b1111_1111], 14, true), vec![!0, 0b1111_1111]);
    assert_eq!(u8_slice_set(vec![0, 0b0000_0000], 8, true), vec![0, 0b1000_0000]);
    assert_eq!(u8_slice_set(vec![0, 0b1000_0000], 8, false), vec![0, 0b0000_0000]);
    assert_eq!(u8_slice_set(vec![!0, 0b1111_1111], 8, true), vec![!0, 0b1111_1111]);
    assert_eq!(u8_slice_set(vec![0b0000_0000, 0], 7, true), vec![0b0000_0001, 0]);
    assert_eq!(u8_slice_set(vec![0b0000_0001, 0], 7, false), vec![0b0000_0000, 0]);
    assert_eq!(u8_slice_set(vec![0b0000_0001, !0], 7, true), vec![0b0000_0001, !0]);
    assert_eq!(u8_slice_set(vec![0b0000_0000, 0], 0, true), vec![0b1000_0000, 0]);
    assert_eq!(u8_slice_set(vec![0b1000_0000, 0], 0, false), vec![0b0000_0000, 0]);
    assert_eq!(u8_slice_set(vec![0b1111_1111, !0], 0, true), vec![0b1111_1111, !0]);
}

#[test]
fn tests_test_u8_slice_flip() {
    assert_eq!(u8_slice_flip(vec![0, 0b0000_0000], 15), vec![0, 0b0000_0001]);
    assert_eq!(u8_slice_flip(vec![0, 0b0000_0001], 15), vec![0, 0b0000_0000]);
    assert_eq!(u8_slice_flip(vec![0, 0b0000_0000], 8), vec![0, 0b1000_0000]);
    assert_eq!(u8_slice_flip(vec![!0, 0b1111_1111], 8), vec![!0, 0b0111_1111]);
    assert_eq!(u8_slice_flip(vec![0b0000_0000, 0], 7), vec![0b0000_0001, 0]);
    assert_eq!(u8_slice_flip(vec![0b0000_0001, 0], 7), vec![0b0000_0000, 0]);
    assert_eq!(u8_slice_flip(vec![0b0000_0000, !0], 0), vec![0b1000_0000, !0]);
    assert_eq!(u8_slice_flip(vec![0b1111_1111, 0], 0), vec![0b0111_1111, 0]);
}

#[test]
fn tests_test_u8_slice_shared_prefix_len() {
    assert_eq!(0, slice_shared_prefix_len(&vec![0b0000_0000], &vec![0b0000_0000], 0));
    assert_eq!(0, slice_shared_prefix_len(&vec![0b0000_0000], &vec![0b1000_0000], 8));
    assert_eq!(1, slice_shared_prefix_len(&vec![0b0000_0000], &vec![0b0000_0000], 1));
    assert_eq!(1, slice_shared_prefix_len(&vec![0b0000_0000], &vec![0b0100_0000], 8));
    assert_eq!(7, slice_shared_prefix_len(&vec![0b1100_0000], &vec![0b1100_0001], 7));
    assert_eq!(7, slice_shared_prefix_len(&vec![0b1100_0000], &vec![0b1100_0001], 8));

    assert_eq!(
        0,
        slice_shared_prefix_len(&vec![0b0000_0000, 0b0000_0000], &vec![0b0000_0000, 0b0000_0000], 0)
    );
    assert_eq!(
        0,
        slice_shared_prefix_len(&vec![0b0000_0000, 0b0000_0000], &vec![0b1000_0000, 0b0000_0000], 8)
    );
    assert_eq!(
        1,
        slice_shared_prefix_len(&vec![0b0000_0000, 0b0000_0000], &vec![0b0000_0000, 0b0000_0000], 1)
    );
    assert_eq!(
        1,
        slice_shared_prefix_len(&vec![0b0000_0000, 0b0000_0000], &vec![0b0100_0000, 0b0000_0000], 8)
    );
    assert_eq!(
        7,
        slice_shared_prefix_len(&vec![0b1100_0000, 0b0000_0000], &vec![0b1100_0001, 0b0000_0000], 7)
    );
    assert_eq!(
        7,
        slice_shared_prefix_len(&vec![0b1100_0000, 0b0000_0000], &vec![0b1100_0001, 0b0000_0000], 8)
    );

    assert_eq!(
        8,
        slice_shared_prefix_len(&vec![0b0010_1000, 0b0000_0000], &vec![0b0010_1000, 0b0000_0000], 8)
    );
    assert_eq!(
        8,
        slice_shared_prefix_len(&vec![0b0010_1000, 0b0000_0000], &vec![0b0010_1000, 0b1000_0000], 16)
    );
    assert_eq!(
        9,
        slice_shared_prefix_len(&vec![0b0010_1000, 0b0000_0000], &vec![0b0010_1000, 0b0000_0000], 9)
    );
    assert_eq!(
        9,
        slice_shared_prefix_len(&vec![0b0010_1000, 0b0000_0000], &vec![0b0010_1000, 0b0100_0000], 16)
    );
    assert_eq!(
        15,
        slice_shared_prefix_len(&vec![0b0010_1000, 0b1100_0000], &vec![0b0010_1000, 0b1100_0001], 15)
    );
    assert_eq!(
        15,
        slice_shared_prefix_len(&vec![0b0010_1000, 0b1100_0000], &vec![0b0010_1000, 0b1100_0001], 16)
    );
}

#[test]
fn tests_test_u8_slice_set_false_from() {
    assert_eq!(u8_slice_set_false_from(vec![0, 0b1111_1111], 16), vec![0, 0b1111_1111]);
    assert_eq!(u8_slice_set_false_from(vec![!0, 0b1111_1111], 16), vec![!0, 0b1111_1111]);
    assert_eq!(u8_slice_set_false_from(vec![!0, 0b1111_1111], 15), vec![!0, 0b1111_1110]);
    assert_eq!(u8_slice_set_false_from(vec![!0, 0b1111_1111], 9), vec![!0, 0b1000_0000]);
    assert_eq!(u8_slice_set_false_from(vec![0, 0b1111_1111], 8), vec![0, 0b0000_0000]);
    assert_eq!(u8_slice_set_false_from(vec![!0, 0b1111_1111], 8), vec![!0, 0b0000_0000]);
    assert_eq!(u8_slice_set_false_from(vec![0b1111_1111, !0], 7), vec![0b1111_1110, 0]);
    assert_eq!(u8_slice_set_false_from(vec![0b1111_1111, !0], 1), vec![0b1000_0000, 0]);
    assert_eq!(u8_slice_set_false_from(vec![0b1111_1111, !0], 0), vec![0b0000_0000, 0]);
}

#[test]
fn tests_test_u8_slice_is_false_from() {
    assert!(slice_is_false_from(&vec![0, 0b1111_1111], 16));
    assert!(slice_is_false_from(&vec![!0, 0b1111_1111], 16));
    assert!(slice_is_false_from(&vec![!0, 0b1111_1110], 15));
    assert!(slice_is_false_from(&vec![!0, 0b1000_0000], 9));
    assert!(slice_is_false_from(&vec![0, 0b0000_0000], 8));
    assert!(slice_is_false_from(&vec![!0, 0b0000_0000], 8));
    assert!(slice_is_false_from(&vec![0b1111_1110, 0], 7));
    assert!(slice_is_false_from(&vec![0b1000_0000, 0], 1));
    assert!(slice_is_false_from(&vec![0b0000_0000, 0], 0));
}

#[test]
fn tests_test_u8_slice_set_true_from() {
    assert_eq!(u8_slice_set_true_from(vec![!0, 0b1111_1111], 16), vec![!0, 0b1111_1111]);
    assert_eq!(u8_slice_set_true_from(vec![0, 0b0000_0000], 16), vec![0, 0b0000_0000]);
    assert_eq!(u8_slice_set_true_from(vec![0, 0b0000_0000], 15), vec![0, 0b0000_0001]);
    assert_eq!(u8_slice_set_true_from(vec![0, 0b0000_0000], 9), vec![0, 0b0111_1111]);
    assert_eq!(u8_slice_set_true_from(vec![!0, 0b0000_0000], 8), vec![!0, 0b1111_1111]);
    assert_eq!(u8_slice_set_true_from(vec![0, 0b0000_0000], 8), vec![0, 0b1111_1111]);
    assert_eq!(u8_slice_set_true_from(vec![0b0000_0000, 0], 7), vec![0b0000_0001, !0]);
    assert_eq!(u8_slice_set_true_from(vec![0b0000_0000, 0], 1), vec![0b0111_1111, !0]);
    assert_eq!(u8_slice_set_true_from(vec![0b0000_0000, 0], 0), vec![0b1111_1111, !0]);
}

#[test]
fn tests_test_u8_slice_is_true_from() {
    assert!(slice_is_true_from(&vec![!0, 0b1111_1111], 16));
    assert!(slice_is_true_from(&vec![0, 0b0000_0000], 16));
    assert!(slice_is_true_from(&vec![0, 0b0000_0001], 15));
    assert!(slice_is_true_from(&vec![0, 0b0111_1111], 9));
    assert!(slice_is_true_from(&vec![!0, 0b1111_1111], 8));
    assert!(slice_is_true_from(&vec![0, 0b1111_1111], 8));
    assert!(slice_is_true_from(&vec![0b0000_0001, !0], 7));
    assert!(slice_is_true_from(&vec![0b0111_1111, !0], 1));
    assert!(slice_is_true_from(&vec![0b1111_1111, !0], 0));
}

#[test]
fn tests_test_u8_slice_contains() {
    assert!(slice_contains(&vec![0, 0], 0, &vec![!0, !0]));
    assert!(slice_contains(&vec![0b0000_0000, 0], 1, &vec![0b0111_1111, !0]));
    assert!(slice_contains(&vec![0b1111_1111, !0], 1, &vec![0b1000_0000, 0]));
    assert!(slice_contains(&vec![0b0000_0000, 0], 7, &vec![0b0000_0001, !0]));
    assert!(slice_contains(&vec![0b1111_1111, 0], 7, &vec![0b1111_1110, !0]));
    assert!(!slice_contains(&vec![0b0000_0000, 0], 7, &vec![0b1000_0001, 0]));
    assert!(!slice_contains(&vec![0b0000_0000, 0], 7, &vec![0b0000_1001, 0]));
    assert!(!slice_contains(&vec![0b0111_1111, 0], 7, &vec![0b1111_1110, 0]));
    assert!(!slice_contains(&vec![0b1111_1111, 0], 7, &vec![0b1111_0110, 0]));
    assert!(slice_contains(&vec![0b0000_0000, 0], 8, &vec![0b0000_0000, !0]));
    assert!(slice_contains(&vec![0b1111_1111, !0], 8, &vec![0b1111_1111, 0]));
    assert!(!slice_contains(&vec![0b0000_0000, 0], 8, &vec![0b0000_0001, 0]));
    assert!(!slice_contains(&vec![0b0000_0000, 0], 8, &vec![0b1000_0000, 0]));
    assert!(!slice_contains(&vec![0b1111_1111, 0], 8, &vec![0b1111_1110, 0]));
    assert!(!slice_contains(&vec![0b1111_1111, 0], 8, &vec![0b0111_1111, 0]));

    assert!(slice_contains(&vec![0, 0b0000_0000], 9, &vec![0, 0b0111_1111]));
    assert!(slice_contains(&vec![!0, 0b1111_1111], 9, &vec![!0, 0b1000_0000]));
    assert!(slice_contains(&vec![0, 0b0000_0000], 15, &vec![0, 0b0000_0001]));
    assert!(slice_contains(&vec![!0, 0b1111_1111], 15, &vec![!0, 0b1111_1110]));
    assert!(!slice_contains(&vec![0, 0b0000_0000], 15, &vec![0, 0b1000_0001]));
    assert!(!slice_contains(&vec![0, 0b0000_0000], 15, &vec![0, 0b0000_1001]));
    assert!(!slice_contains(&vec![!0, 0b0111_1111], 15, &vec![!0, 0b1111_1110]));
    assert!(!slice_contains(&vec![!0, 0b1111_1111], 15, &vec![!0, 0b1111_0110]));
    assert!(slice_contains(&vec![0, 0b0000_0000], 16, &vec![0, 0b0000_0000]));
    assert!(slice_contains(&vec![!0, 0b1111_1111], 16, &vec![!0, 0b1111_1111]));
    assert!(!slice_contains(&vec![0, 0b0000_0000], 16, &vec![0, 0b0000_0001]));
    assert!(!slice_contains(&vec![0, 0b0000_0000], 16, &vec![0, 0b1000_0000]));
    assert!(!slice_contains(&vec![!0, 0b1111_1111], 16, &vec![!0, 0b1111_1110]));
    assert!(!slice_contains(&vec![!0, 0b1111_1111], 16, &vec![!0, 0b0111_1111]));
}
