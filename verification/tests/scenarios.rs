//! Concrete scenarios: the prefix-preserving increment and its cycle,
//! containment, the address-sized words, the length-bounded string, and
//! the two orderings.

use core::cmp::Ordering;
use bitstring::bigendian::element_contains;
use bitstring::bigendian::element_inc;
use bitstring::bigendian::element_set_false_from;
use bitstring::bigendian::element_set_true_from;
use bitstring::bigendian::element_is_false_from;
use bitstring::bigendian::element_is_true_from;
use bitstring::bigendian::element_shared_prefix_len;
use bitstring::bigendian::slice_contains;
use bitstring::bigendian::slice_inc;
use bitstring::BitLengthString;
use bitstring::BitString;
use bitstring::BigEndianBitString;
use bitstring::FixedBitString;
use bitstring::Iter;

#[test]
fn two_words_inc_at_prefix_fifteen_and_sixteen() {
    let mut v: Vec<u8> = vec![0b0000_0000, 0b0000_0000];
    assert_eq!(slice_inc(&mut v, 15), false);
    assert_eq!(v, vec![0b0000_0000, 0b0000_0001]);

    let mut w: Vec<u8> = vec![0b0000_0000, 0b0000_0000];
    assert_eq!(slice_inc(&mut w, 16), true);
    assert_eq!(w, vec![0b0000_0000, 0b0000_0000]);
}

#[test]
fn contains_on_seven_and_eight_bit_prefixes() {
    for x in [0u8, 1, 0b1010_1010, 0xff] {
        for y in [0u8, 1, 0b0101_0101, 0xff] {
            assert!(slice_contains(&vec![0b1111_1111, x], 7, &vec![0b1111_1110, y]));
        }
    }
    assert!(!slice_contains(
        &vec![0b1111_1111, 0],
        8,
        &vec![0b1111_1110, 0]
    ));
}

#[test]
fn address_sized_word_extremes_and_network_containment() {
    // A 32-bit word carries an IPv4 address in network byte order.
    let zero: u32 = FixedBitString::new_all_false();
    assert_eq!(zero, 0); // 0.0.0.0
    let ones: u32 = FixedBitString::new_all_true();
    assert_eq!(ones, 0xffff_ffff); // 255.255.255.255

    let a: u32 = 0xc0a8_0105; // 192.168.1.5
    let b: u32 = 0xc0a8_01c8; // 192.168.1.200
    let c: u32 = 0xc0a8_02c8; // 192.168.2.200
    assert!(a.contains(24, &b));
    assert!(b.contains(24, &a));
    assert!(!a.contains(24, &c));
}

#[test]
fn bit_length_string_construction_zeroes_the_tail() {
    let bits: u8 = 0b0000_0100; // bit 5 set
    let s = BitLengthString::new(bits, 3);
    assert_eq!(s.len(), 3);
    assert_eq!(FixedBitString::get(s.bits(), 5), false);
}

#[test]
fn inc_cycles_through_all_values_of_the_free_suffix() {
    // 8-bit word, protected prefix of 4 bits: 16 steps return to the
    // start, and only the last one overflows.
    let start: u8 = 0b1010_0000;
    let mut w: u8 = start;
    for step in 0..16u32 {
        let overflow = w.inc(4);
        assert_eq!(overflow, step == 15);
        assert_eq!(w & 0b1111_0000, 0b1010_0000);
    }
    assert_eq!(w, start);
}

#[test]
fn inc_keeps_the_protected_prefix_on_overflow() {
    assert_eq!(element_inc(0b1011_1111, 4), (0b1011_0000, true));
    assert_eq!(element_inc(0b1011_0010, 4), (0b1011_0011, false));
}

#[test]
fn shared_prefix_len_is_symmetric_and_bounded() {
    let a: u8 = 0b1100_0000;
    let b: u8 = 0b1100_0101;
    assert_eq!(
        element_shared_prefix_len(a, b, 8),
        element_shared_prefix_len(b, a, 8)
    );
    assert!(element_shared_prefix_len(a, b, 5) <= 5);
    assert_eq!(element_shared_prefix_len(a, b, 8), 5);
}

#[test]
fn tail_operations_are_idempotent_with_their_queries() {
    let v: u8 = 0b0110_1001;
    assert!(element_is_true_from(element_set_true_from(v, 3), 3));
    assert!(element_is_false_from(element_set_false_from(v, 3), 3));
    let all_true = element_set_true_from(v, 0);
    assert_eq!(element_set_false_from(all_true, 0), 0);
}

#[test]
fn containment_matches_the_shared_prefix_length() {
    let a: u8 = 0b1100_1010;
    let b: u8 = 0b1100_0101;
    for p in 0..9usize {
        assert_eq!(
            element_contains(a, p, b),
            element_shared_prefix_len(a, b, 8) >= p
        );
    }
}

#[test]
fn iter_enumerates_every_value_sharing_the_prefix() {
    let start: u8 = 0b0100_0000;
    let mut it: Iter<u8> = start.iter(6);
    let mut seen: Vec<u8> = Vec::new();
    loop {
        match it.next() {
            Some(v) => seen.push(v),
            None => break,
        }
    }
    assert_eq!(seen, vec![0b0100_0000, 0b0100_0001, 0b0100_0010, 0b0100_0011]);
}

#[test]
fn lexicographic_order_on_length_bounded_strings() {
    let empty: BitLengthString<u8> = BitLengthString::new(0u8, 0);
    let zero = BitLengthString::new(0b0000_0000u8, 1); // "0"
    let one = BitLengthString::new(0b1000_0000u8, 1); // "1"
    let zero_one = BitLengthString::new(0b0100_0000u8, 2); // "01"

    assert_eq!(empty.lexicographic_cmp(&zero), Ordering::Less);
    assert_eq!(zero.lexicographic_cmp(&one), Ordering::Less);
    assert_eq!(zero.lexicographic_cmp(&zero_one), Ordering::Less);
    assert_eq!(zero_one.lexicographic_cmp(&one), Ordering::Less);
    assert_eq!(one.lexicographic_cmp(&zero_one), Ordering::Greater);
    assert_eq!(one.lexicographic_cmp(&one), Ordering::Equal);
    assert_eq!(one.partial_cmp(&zero), Some(Ordering::Greater));
    assert!(zero < one);
}

#[test]
fn subset_order_on_length_bounded_strings() {
    let empty: BitLengthString<u8> = BitLengthString::new(0u8, 0);
    let zero = BitLengthString::new(0b0000_0000u8, 1); // "0"
    let one = BitLengthString::new(0b1000_0000u8, 1); // "1"
    let zero_one = BitLengthString::new(0b0100_0000u8, 2); // "01"

    assert_eq!(empty.subset_cmp(&zero), Some(Ordering::Greater));
    assert_eq!(zero.subset_cmp(&empty), Some(Ordering::Less));
    assert_eq!(zero.subset_cmp(&zero), Some(Ordering::Equal));
    assert_eq!(zero.subset_cmp(&zero_one), Some(Ordering::Greater));
    assert_eq!(zero_one.subset_cmp(&zero), Some(Ordering::Less));
    assert_eq!(zero.subset_cmp(&one), None);
    assert_eq!(zero_one.subset_cmp(&one), None);
}

#[test]
fn equality_compares_only_the_visible_bits() {
    // The two raw words differ beyond the logical length; the
    // constructor zeroes that tail, so the strings are equal.
    let a = BitLengthString::new(0b1010_1111u8, 4);
    let b = BitLengthString::new(0b1010_0000u8, 4);
    assert_eq!(a, b);
    let c = BitLengthString::new(0b1010_0000u8, 5);
    assert!(a != c);
}

#[test]
fn bit_string_editing_on_length_bounded_strings() {
    let mut s: BitLengthString<u8> = BitString::null();
    assert_eq!(BitString::len(&s), 0);
    s.append(true);
    s.append(false);
    s.append(true);
    assert_eq!(BitString::len(&s), 3);
    assert_eq!(s.get(0), true);
    assert_eq!(s.get(1), false);
    assert_eq!(s.get(2), true);
    s.flip(1);
    assert_eq!(s.get(1), true);
    s.set(1, false);
    assert_eq!(s.get(1), false);
    s.clip(1);
    assert_eq!(BitString::len(&s), 1);
    assert_eq!(*s.bits(), 0b1000_0000);
}

#[test]
fn shared_prefix_of_length_bounded_strings() {
    let a = BitLengthString::new(0b1011_0000u8, 4); // "1011"
    let b = BitLengthString::new(0b1010_0000u8, 4); // "1010"
    assert_eq!(a.shared_prefix_len(&b), 3);
    let p = a.shared_prefix(&b);
    assert_eq!(BitString::len(&p), 3);
    assert_eq!(*p.bits(), 0b1010_0000);
    assert_eq!(p, BitLengthString::new(0b1010_0000u8, 3));
}

#[test]
fn wider_words_share_the_byte_level_semantics() {
    let mut a: u16 = 0;
    assert_eq!(a.inc(0), false);
    assert_eq!(a, 1);
    let mut b: u16 = 0xffff;
    assert_eq!(b.inc(0), true);
    assert_eq!(b, 0);

    let ones64: u64 = FixedBitString::new_all_true();
    assert_eq!(ones64, u64::MAX);
    let mut c: u64 = u64::MAX;
    c.set_false_from(32);
    assert_eq!(c, 0xffff_ffff_0000_0000);
    assert!(c.is_false_from(32));
    assert!(c.is_true_from(64));

    let mut d: u128 = 0;
    d.set(0, true);
    d.set(127, true);
    assert_eq!(d, (1u128 << 127) | 1);
    assert_eq!(d.get(0), true);
    assert_eq!(d.get(1), false);
    assert_eq!(d.get(127), true);
    assert_eq!(FixedBitString::shared_prefix_len(&d, &(1u128 << 127)), 127);
    assert_eq!(<u16 as FixedBitString>::len(), 16);
    assert_eq!(<u128 as FixedBitString>::len(), 128);
}

#[test]
fn word_slices_carry_bits_across_word_boundaries() {
    let mut v: Vec<u16> = vec![0x0000, 0xffff];
    assert_eq!(<u16 as BigEndianBitString>::inc(&mut v, 16), true);
    assert_eq!(v, vec![0x0000, 0x0000]);

    let mut w: Vec<u16> = vec![0x0000, 0xffff];
    assert_eq!(<u16 as BigEndianBitString>::inc(&mut w, 0), false);
    assert_eq!(w, vec![0x0001, 0x0000]);

    let mut x: Vec<u32> = vec![0, 0];
    <u32 as BigEndianBitString>::set(&mut x, 31, true);
    assert_eq!(x, vec![1, 0]);
    assert_eq!(<u32 as BigEndianBitString>::get(&x, 31), true);
    assert_eq!(<u32 as BigEndianBitString>::get(&x, 30), false);
    <u32 as BigEndianBitString>::flip(&mut x, 32);
    assert_eq!(x, vec![1, 0x8000_0000]);

    assert_eq!(
        <u64 as BigEndianBitString>::shared_prefix_len(&vec![7u64, 0], &vec![7u64, u64::MAX], 128),
        64
    );
    assert!(<u64 as BigEndianBitString>::contains(&vec![7u64, 0], 64, &vec![7u64, u64::MAX]));
    assert!(!<u64 as BigEndianBitString>::contains(&vec![7u64, 0], 65, &vec![7u64, u64::MAX]));

    let mut y: Vec<u128> = vec![0, 0];
    <u128 as BigEndianBitString>::set_true_from(&mut y, 130);
    assert_eq!(y, vec![0, !0u128 >> 2]);
    assert!(<u128 as BigEndianBitString>::is_true_from(&y, 130));
    assert!(!<u128 as BigEndianBitString>::is_true_from(&y, 129));
    <u128 as BigEndianBitString>::set_false_from(&mut y, 200);
    assert_eq!(y, vec![0, (!0u128 >> 2) & (!0u128 << 56)]);
    assert!(<u128 as BigEndianBitString>::is_false_from(&y, 200));

    assert_eq!(<u16 as BigEndianBitString>::mask(3), 0b0001_0000_0000_0000u16);
    assert_eq!(<u16 as BigEndianBitString>::mask(19), 0b0001_0000_0000_0000u16);
    assert_eq!(<u128 as BigEndianBitString>::mask(127), 1u128);
}
