//! Big-endian bit operations on single bytes and on byte sequences: the
//! word-arithmetic core that the fixed and variable-length bit string
//! layers build on.

use vstd::prelude::*;

verus! {

use crate::bits::{
    agree_below,
    bits_value,
    byte_bit,
    byte_bits,
    bytes_bits,
    false_from,
    inc_bits,
    inc_overflow,
    shared_prefix,
    true_from,
};

/// A single bit set at shift `sh` from the least significant end.
proof fn bv_one_shl_bit(sh: u8, j: u8)
    by (bit_vector)
    requires
        sh < 8,
        j < 8,
    ensures
        (((1u8 << sh) >> j) & 1u8 == 1u8) == (j == sh),
{
}

/// The bitwise operators act bit by bit.
proof fn bv_bitwise_bits(a: u8, b: u8, j: u8)
    by (bit_vector)
    requires
        j < 8,
    ensures
        (((a & b) >> j) & 1u8 == 1u8) == (((a >> j) & 1u8 == 1u8) && ((b >> j) & 1u8 == 1u8)),
        (((a | b) >> j) & 1u8 == 1u8) == (((a >> j) & 1u8 == 1u8) || ((b >> j) & 1u8 == 1u8)),
        (((a ^ b) >> j) & 1u8 == 1u8) == (((a >> j) & 1u8 == 1u8) != ((b >> j) & 1u8 == 1u8)),
        (((!a) >> j) & 1u8 == 1u8) == !((a >> j) & 1u8 == 1u8),
{
}

/// Two bytes with the same bits are the same byte.
pub proof fn lemma_byte_eq(a: u8, b: u8)
    requires
        forall|i: int| 0 <= i < 8 ==> byte_bit(a, i) == byte_bit(b, i),
    ensures
        a == b,
{
    assert(byte_bits(a) =~= byte_bits(b));
    crate::bits::lemma_byte_bits_value(a);
    crate::bits::lemma_byte_bits_value(b);
}

/// The all-false byte is 0 and the all-true byte is 255.
pub proof fn lemma_byte_extremes()
    ensures
        forall|i: int| 0 <= i < 8 ==> !byte_bit(0u8, i),
        forall|i: int| 0 <= i < 8 ==> byte_bit(0xffu8, i),
{
    crate::bits::lemma_byte_bits_value(0u8);
    crate::bits::lemma_byte_bits_value(0xffu8);
    crate::bits::lemma_bits_value_all_false(byte_bits(0u8));
    crate::bits::lemma_bits_value_all_true(byte_bits(0xffu8));
    vstd::arithmetic::power2::lemma2_to64();
    assert(true_from(byte_bits(0xffu8), 0));
    assert forall|i: int| 0 <= i < 8 implies !byte_bit(0u8, i) by {
        assert(!byte_bits(0u8)[i]);
    }
    assert forall|i: int| 0 <= i < 8 implies byte_bit(0xffu8, i) by {
        assert(byte_bits(0xffu8)[i]);
    }
}

/// The suffix mask `0xff >> p` selects the bits at index `p` and beyond.
proof fn bv_suffix_mask_bit(p: u8, j: u8)
    by (bit_vector)
    requires
        p <= 8,
        j < 8,
    ensures
        ((((0xffu8 >> p)) >> j) & 1u8 == 1u8) == (j < 8 - p),
{
}

/// Integer with a single bit set; bit 0 is the highest bit (big endian).
/// Wraps at 8.
pub fn mask(ndx: usize) -> (r: u8)
    ensures
        forall|i: int| 0 <= i < 8 ==> byte_bit(r, i) == (i == ndx as int % 8),
{
    let sh: u8 = (7 - (ndx % 8)) as u8;
    let r: u8 = 1u8 << sh;
    proof {
        assert forall|i: int| 0 <= i < 8 implies byte_bit(r, i) == (i == ndx as int % 8) by {
            bv_one_shl_bit(sh, (7 - i) as u8);
        }
    }
    r
}

/// Get the `ndx`th bit.
pub fn element_get(value: u8, ndx: usize) -> (r: bool)
    requires
        ndx < 8,
    ensures
        r == byte_bit(value, ndx as int),
{
    let m: u8 = mask(ndx);
    let r: bool = 0 != value & m;
    proof {
        assert(ndx as int % 8 == ndx as int);
        lemma_byte_extremes();
        if byte_bit(value, ndx as int) {
            let j: u8 = (7 - ndx as int) as u8;
            bv_bitwise_bits(value, m, j);
            assert(byte_bit(m, ndx as int));
            assert((value >> j) & 1u8 == 1u8);
            assert((m >> j) & 1u8 == 1u8);
            assert(((value & m) >> j) & 1u8 == 1u8);
            assert(byte_bit(value & m, ndx as int));
            if value & m == 0 {
                assert(!byte_bit(0u8, ndx as int));
            }
        } else {
            assert forall|i: int| 0 <= i < 8 implies byte_bit(value & m, i) == byte_bit(
                0u8,
                i,
            ) by {
                let j: u8 = (7 - i) as u8;
                bv_bitwise_bits(value, m, j);
                assert(byte_bit(m, i) == (i == ndx as int));
                assert(byte_bit(value, i) == ((value >> j) & 1u8 == 1u8));
                assert(byte_bit(value & m, i) == (((value & m) >> j) & 1u8 == 1u8));
                assert(!byte_bit(0u8, i));
            }
            lemma_byte_eq(value & m, 0);
        }
    }
    r
}

/// Set the `ndx`th bit to `bit`.
pub fn element_set(value: u8, ndx: usize, bit: bool) -> (r: u8)
    requires
        ndx < 8,
    ensures
        forall|i: int|
            0 <= i < 8 ==> byte_bit(r, i) == (if i == ndx as int {
                bit
            } else {
                byte_bit(value, i)
            }),
{
    let m: u8 = mask(ndx);
    let r: u8 = if bit {
        value | m
    } else {
        value & !m
    };
    proof {
        assert(ndx as int % 8 == ndx as int);
        assert forall|i: int| 0 <= i < 8 implies byte_bit(r, i) == (if i == ndx as int {
            bit
        } else {
            byte_bit(value, i)
        }) by {
            let j: u8 = (7 - i) as u8;
            bv_bitwise_bits(value, m, j);
            bv_bitwise_bits(value, !m, j);
            bv_bitwise_bits(m, m, j);
            assert(byte_bit(m, i) == (i == ndx as int));
            assert(byte_bit(value, i) == ((value >> j) & 1u8 == 1u8));
            assert(byte_bit(r, i) == ((r >> j) & 1u8 == 1u8));
        }
    }
    r
}

/// Flip the `ndx`th bit.
pub fn element_flip(value: u8, ndx: usize) -> (r: u8)
    requires
        ndx < 8,
    ensures
        forall|i: int|
            0 <= i < 8 ==> byte_bit(r, i) == (if i == ndx as int {
                !byte_bit(value, i)
            } else {
                byte_bit(value, i)
            }),
{
    let m: u8 = mask(ndx);
    let r: u8 = value ^ m;
    proof {
        assert(ndx as int % 8 == ndx as int);
        assert forall|i: int| 0 <= i < 8 implies byte_bit(r, i) == (if i == ndx as int {
            !byte_bit(value, i)
        } else {
            byte_bit(value, i)
        }) by {
            let j: u8 = (7 - i) as u8;
            bv_bitwise_bits(value, m, j);
            assert(byte_bit(m, i) == (i == ndx as int));
            assert(byte_bit(value, i) == ((value >> j) & 1u8 == 1u8));
            assert(byte_bit(r, i) == ((r >> j) & 1u8 == 1u8));
        }
    }
    r
}

/// Number of leading false bits of a byte: the index of its first true
/// bit, or 8 when there is none.
pub fn byte_leading_zeros(x: u8) -> (r: usize)
    ensures
        r <= 8,
        forall|i: int| 0 <= i < r ==> !byte_bit(x, i),
        r < 8 ==> byte_bit(x, r as int),
{
    let mut i: usize = 0;
    while i < 8
        invariant
            i <= 8,
            forall|k: int| 0 <= k < i ==> !byte_bit(x, k),
        decreases 8 - i,
    {
        if element_get(x, i) {
            return i;
        }
        i = i + 1;
    }
    8
}

/// Length of the longest shared prefix of two bytes, capped at `max_len`.
pub fn element_shared_prefix_len(value: u8, other: u8, max_len: usize) -> (r: usize)
    requires
        max_len <= 8,
    ensures
        r <= max_len,
        r as nat == shared_prefix(byte_bits(value), byte_bits(other), max_len as nat),
{
    let diff: u8 = value ^ other;
    let lz: usize = byte_leading_zeros(diff);
    let r: usize = if lz < max_len {
        lz
    } else {
        max_len
    };
    proof {
        let a = byte_bits(value);
        let b = byte_bits(other);
        assert forall|i: int| 0 <= i < r implies a[i] == b[i] by {
            let j: u8 = (7 - i) as u8;
            bv_bitwise_bits(value, other, j);
            assert(!byte_bit(diff, i));
            assert(byte_bit(value, i) == ((value >> j) & 1u8 == 1u8));
            assert(byte_bit(other, i) == ((other >> j) & 1u8 == 1u8));
            assert(byte_bit(diff, i) == (((value ^ other) >> j) & 1u8 == 1u8));
        }
        if r < max_len {
            let j: u8 = (7 - r as int) as u8;
            bv_bitwise_bits(value, other, j);
            assert(byte_bit(diff, r as int));
            assert(byte_bit(value, r as int) == ((value >> j) & 1u8 == 1u8));
            assert(byte_bit(other, r as int) == ((other >> j) & 1u8 == 1u8));
            assert(byte_bit(diff, r as int) == (((value ^ other) >> j) & 1u8 == 1u8));
            assert(a[r as int] != b[r as int]);
        }
        crate::bits::lemma_shared_prefix_unique(a, b, max_len as nat, r as int);
    }
    r
}

/// Set all bits from `ndx` on to false; does nothing when `ndx >= 8`.
pub fn element_set_false_from(value: u8, ndx: usize) -> (r: u8)
    ensures
        forall|i: int| 0 <= i < 8 ==> byte_bit(r, i) == (i < ndx && byte_bit(value, i)),
{
    if ndx >= 8 {
        return value;
    }
    let m: u8 = 0xffu8 >> (ndx as u8);
    let r: u8 = value & !m;
    proof {
        let p8: u8 = ndx as u8;
        assert forall|i: int| 0 <= i < 8 implies byte_bit(r, i) == (i < ndx && byte_bit(
            value,
            i,
        )) by {
            let j: u8 = (7 - i) as u8;
            bv_bitwise_bits(value, !m, j);
            bv_bitwise_bits(m, m, j);
            bv_suffix_mask_bit(p8, j);
            assert(byte_bit(value, i) == ((value >> j) & 1u8 == 1u8));
            assert(byte_bit(r, i) == ((r >> j) & 1u8 == 1u8));
        }
    }
    r
}

/// Whether all bits from `ndx` on are false; vacuously true when `ndx >= 8`.
pub fn element_is_false_from(value: u8, ndx: usize) -> (r: bool)
    ensures
        r == false_from(byte_bits(value), ndx as int),
{
    if ndx >= 8 {
        return true;
    }
    let m: u8 = 0xffu8 >> (ndx as u8);
    let r: bool = value & m == 0;
    proof {
        let p8: u8 = ndx as u8;
        lemma_byte_extremes();
        if r {
            assert forall|i: int| ndx <= i < 8 implies !byte_bits(value)[i] by {
                let j: u8 = (7 - i) as u8;
                bv_bitwise_bits(value, m, j);
                bv_suffix_mask_bit(p8, j);
                assert(byte_bit(value & m, i) == (((value & m) >> j) & 1u8 == 1u8));
                assert(byte_bit(value, i) == ((value >> j) & 1u8 == 1u8));
                assert(byte_bit(m, i) == ((m >> j) & 1u8 == 1u8));
                assert(!byte_bit(0u8, i));
            }
        }
        if !r {
            if false_from(byte_bits(value), ndx as int) {
                assert forall|i: int| 0 <= i < 8 implies byte_bit(value & m, i) == byte_bit(
                    0u8,
                    i,
                ) by {
                    let j: u8 = (7 - i) as u8;
                    bv_bitwise_bits(value, m, j);
                    bv_suffix_mask_bit(p8, j);
                    assert(byte_bit(value, i) == ((value >> j) & 1u8 == 1u8));
                    assert(byte_bit(m, i) == ((m >> j) & 1u8 == 1u8));
                    assert(byte_bit(value & m, i) == (((value & m) >> j) & 1u8 == 1u8));
                    if ndx <= i < 8 {
                        assert(!byte_bits(value)[i]);
                    }
                }
                lemma_byte_eq(value & m, 0);
            }
        }
    }
    r
}

/// Set all bits from `ndx` on to true; does nothing when `ndx >= 8`.
pub fn element_set_true_from(value: u8, ndx: usize) -> (r: u8)
    ensures
        forall|i: int| 0 <= i < 8 ==> byte_bit(r, i) == (i >= ndx || byte_bit(value, i)),
{
    if ndx >= 8 {
        return value;
    }
    let m: u8 = 0xffu8 >> (ndx as u8);
    let r: u8 = value | m;
    proof {
        let p8: u8 = ndx as u8;
        assert forall|i: int| 0 <= i < 8 implies byte_bit(r, i) == (i >= ndx || byte_bit(
            value,
            i,
        )) by {
            let j: u8 = (7 - i) as u8;
            bv_bitwise_bits(value, m, j);
            bv_suffix_mask_bit(p8, j);
            assert(byte_bit(value, i) == ((value >> j) & 1u8 == 1u8));
            assert(byte_bit(m, i) == ((m >> j) & 1u8 == 1u8));
            assert(byte_bit(r, i) == ((r >> j) & 1u8 == 1u8));
        }
    }
    r
}

/// Whether all bits from `ndx` on are true; vacuously true when `ndx >= 8`.
pub fn element_is_true_from(value: u8, ndx: usize) -> (r: bool)
    ensures
        r == true_from(byte_bits(value), ndx as int),
{
    if ndx >= 8 {
        return true;
    }
    let m: u8 = 0xffu8 >> (ndx as u8);
    let r: bool = value | !m == 0xff;
    proof {
        let p8: u8 = ndx as u8;
        lemma_byte_extremes();
        if r {
            assert forall|i: int| ndx <= i < 8 implies byte_bits(value)[i] by {
                let j: u8 = (7 - i) as u8;
                bv_bitwise_bits(value, !m, j);
                bv_bitwise_bits(m, m, j);
                bv_suffix_mask_bit(p8, j);
                assert(byte_bit(value | !m, i) == (((value | !m) >> j) & 1u8 == 1u8));
                assert(byte_bit(value, i) == ((value >> j) & 1u8 == 1u8));
                assert(byte_bit(m, i) == ((m >> j) & 1u8 == 1u8));
                assert(byte_bit(0xffu8, i));
            }
        }
        if !r {
            if true_from(byte_bits(value), ndx as int) {
                assert forall|i: int| 0 <= i < 8 implies byte_bit(value | !m, i) == byte_bit(
                    0xffu8,
                    i,
                ) by {
                    let j: u8 = (7 - i) as u8;
                    bv_bitwise_bits(value, !m, j);
                    bv_bitwise_bits(m, m, j);
                    bv_suffix_mask_bit(p8, j);
                    assert(byte_bit(value, i) == ((value >> j) & 1u8 == 1u8));
                    assert(byte_bit(m, i) == ((m >> j) & 1u8 == 1u8));
                    assert(byte_bit(value | !m, i) == (((value | !m) >> j) & 1u8 == 1u8));
                    if ndx <= i < 8 {
                        assert(byte_bits(value)[i]);
                    }
                }
                lemma_byte_eq(value | !m, 0xff);
            }
        }
    }
    r
}

/// Whether `other` shares the first `prefix` bits with `value`.
pub fn element_contains(value: u8, prefix: usize, other: u8) -> (r: bool)
    requires
        prefix <= 8,
    ensures
        r == agree_below(byte_bits(value), byte_bits(other), prefix as int),
{
    let ms: u8 = if prefix >= 8 {
        0
    } else {
        0xffu8 >> (prefix as u8)
    };
    let diff: u8 = value ^ other;
    let r: bool = 0 == !ms & diff;
    proof {
        lemma_byte_extremes();
        assert forall|i: int| 0 <= i < 8 implies byte_bit(!ms & diff, i) == (i < prefix
            && byte_bit(diff, i)) by {
            let j: u8 = (7 - i) as u8;
            bv_bitwise_bits(ms, diff, j);
            bv_bitwise_bits(!ms, diff, j);
            if prefix < 8 {
                bv_suffix_mask_bit(prefix as u8, j);
            }
            assert(byte_bit(ms, i) == ((ms >> j) & 1u8 == 1u8));
            assert(byte_bit(diff, i) == ((diff >> j) & 1u8 == 1u8));
            assert(byte_bit(!ms & diff, i) == (((!ms & diff) >> j) & 1u8 == 1u8));
        }
        assert forall|i: int| 0 <= i < 8 implies byte_bit(diff, i) == (byte_bits(value)[i]
            != byte_bits(other)[i]) by {
            let j: u8 = (7 - i) as u8;
            bv_bitwise_bits(value, other, j);
            assert(byte_bit(value, i) == ((value >> j) & 1u8 == 1u8));
            assert(byte_bit(other, i) == ((other >> j) & 1u8 == 1u8));
            assert(byte_bit(diff, i) == ((diff >> j) & 1u8 == 1u8));
        }
        if r {
            assert forall|i: int| 0 <= i < prefix implies byte_bits(value)[i] == byte_bits(
                other,
            )[i] by {
                assert(byte_bit(!ms & diff, i) == byte_bit(0u8, i));
                assert(byte_bit(!ms & diff, i) == (i < prefix && byte_bit(diff, i)));
                assert(byte_bit(diff, i) == (byte_bits(value)[i] != byte_bits(other)[i]));
                assert(!byte_bit(0u8, i));
            }
        }
        if !r {
            if agree_below(byte_bits(value), byte_bits(other), prefix as int) {
                assert forall|i: int| 0 <= i < 8 implies byte_bit(!ms & diff, i) == byte_bit(
                    0u8,
                    i,
                ) by {
                    let j: u8 = (7 - i) as u8;
                    bv_bitwise_bits(!ms, diff, j);
                    bv_bitwise_bits(ms, ms, j);
                    bv_bitwise_bits(value, other, j);
                    assert(byte_bit(ms, i) == ((ms >> j) & 1u8 == 1u8));
                    assert(byte_bit(diff, i) == ((diff >> j) & 1u8 == 1u8));
                    assert(byte_bit(value, i) == ((value >> j) & 1u8 == 1u8));
                    assert(byte_bit(other, i) == ((other >> j) & 1u8 == 1u8));
                    assert(byte_bit(!ms & diff, i) == (((!ms & diff) >> j) & 1u8 == 1u8));
                    assert(!byte_bit(0u8, i));
                    if prefix < 8 {
                        bv_suffix_mask_bit(prefix as u8, j);
                    } else {
                        assert(byte_bit(ms, i) == byte_bit(0u8, i));
                    }
                    if i < prefix {
                        assert(byte_bits(value)[i] == byte_bits(other)[i]);
                    }
                }
                lemma_byte_eq(!ms & diff, 0);
            }
        }
    }
    r
}

/// Increment from the right without touching the first `prefix` bits;
/// overflow wraps the free bits to all false and is reported.
pub fn element_inc(value: u8, prefix: usize) -> (r: (u8, bool))
    requires
        prefix <= 8,
    ensures
        byte_bits(r.0) == inc_bits(byte_bits(value), prefix as int),
        r.1 == inc_overflow(byte_bits(value), prefix as int),
{
    let ghost s = byte_bits(value);
    if prefix >= 8 {
        proof {
            crate::bits::lemma_inc_bits_props(s, 8);
            assert(inc_bits(s, 8) =~= s);
        }
        return (value, true);
    }
    let m: u8 = 0xffu8 >> (prefix as u8);
    let ghost p = prefix as int;
    proof {
        assert forall|i: int| 0 <= i < 8 implies byte_bit(m, i) == (i >= p) by {
            let j: u8 = (7 - i) as u8;
            bv_suffix_mask_bit(prefix as u8, j);
            assert(byte_bit(m, i) == ((m >> j) & 1u8 == 1u8));
        }
    }
    if value & m == m {
        let r0: u8 = value & !m;
        proof {
            assert forall|i: int| p <= i < 8 implies s[i] by {
                let j: u8 = (7 - i) as u8;
                bv_bitwise_bits(value, m, j);
                assert(byte_bit(value & m, i) == byte_bit(m, i));
                assert(byte_bit(value & m, i) == (((value & m) >> j) & 1u8 == 1u8));
                assert(byte_bit(value, i) == ((value >> j) & 1u8 == 1u8));
                assert(byte_bit(m, i) == ((m >> j) & 1u8 == 1u8));
            }
            assert(inc_overflow(s, p));
            crate::bits::lemma_inc_bits_props(s, p);
            assert forall|i: int| 0 <= i < 8 implies byte_bit(r0, i) == inc_bits(s, p)[i] by {
                let j: u8 = (7 - i) as u8;
                bv_bitwise_bits(value, !m, j);
                bv_bitwise_bits(m, m, j);
                assert(byte_bit(value, i) == ((value >> j) & 1u8 == 1u8));
                assert(byte_bit(m, i) == ((m >> j) & 1u8 == 1u8));
                assert(byte_bit(r0, i) == ((r0 >> j) & 1u8 == 1u8));
                if i < p {
                    assert(inc_bits(s, p).take(p)[i] == s.take(p)[i]);
                } else {
                    assert(!inc_bits(s, p)[i]);
                }
            }
            assert(byte_bits(r0) =~= inc_bits(s, p));
        }
        (r0, true)
    } else {
        proof {
            lemma_byte_extremes();
            if inc_overflow(s, p) {
                assert forall|i: int| 0 <= i < 8 implies byte_bit(value & m, i) == byte_bit(
                    m,
                    i,
                ) by {
                    let j: u8 = (7 - i) as u8;
                    bv_bitwise_bits(value, m, j);
                    assert(byte_bit(value, i) == ((value >> j) & 1u8 == 1u8));
                    assert(byte_bit(m, i) == ((m >> j) & 1u8 == 1u8));
                    assert(byte_bit(value & m, i) == (((value & m) >> j) & 1u8 == 1u8));
                    if i >= p {
                        assert(s[i]);
                    }
                }
                lemma_byte_eq(value & m, m);
            }
            assert(!inc_overflow(s, p));
            if value == 0xff {
                assert(s[7]);
            }
        }
        let r0: u8 = value + 1;
        proof {
            crate::bits::lemma_inc_bits_props(s, p);
            crate::bits::lemma_byte_bits_value(value);
            crate::bits::lemma_byte_bits_value(r0);
            crate::bits::lemma_bits_value_split(s, p);
            crate::bits::lemma_bits_value_split(inc_bits(s, p), p);
            assert(inc_bits(s, p).take(p) == s.take(p));
            assert(bits_value(inc_bits(s, p)) == bits_value(s) + 1);
            crate::bits::lemma_bits_value_injective(byte_bits(r0), inc_bits(s, p));
        }
        (r0, false)
    }
}

/// Get the `ndx`th bit of the byte sequence.
pub fn slice_get(slice: &Vec<u8>, ndx: usize) -> (r: bool)
    requires
        (ndx as int) < slice@.len() * 8,
    ensures
        r == bytes_bits(slice@)[ndx as int],
{
    let i: usize = ndx / 8;
    proof {
        assert(ndx as int == 8 * (ndx as int / 8) + ndx as int % 8);
    }
    element_get(slice[i], ndx % 8)
}

/// Set the `ndx`th bit of the byte sequence to `bit`.
pub fn slice_set(slice: &mut Vec<u8>, ndx: usize, bit: bool)
    requires
        (ndx as int) < old(slice)@.len() * 8,
    ensures
        final(slice)@.len() == old(slice)@.len(),
        bytes_bits(final(slice)@) == bytes_bits(old(slice)@).update(ndx as int, bit),
{
    let i: usize = ndx / 8;
    proof {
        assert(ndx as int == 8 * (ndx as int / 8) + ndx as int % 8);
    }
    let b: u8 = element_set(slice[i], ndx % 8, bit);
    slice.set(i, b);
    proof {
        let n = old(slice)@.len();
        assert forall|k: int| 0 <= k < n * 8 implies bytes_bits(slice@)[k] == bytes_bits(
            old(slice)@,
        ).update(ndx as int, bit)[k] by {
            assert(k == 8 * (k / 8) + k % 8);
            assert(bytes_bits(slice@)[k] == byte_bit(slice@[k / 8], k % 8));
            assert(bytes_bits(old(slice)@)[k] == byte_bit(old(slice)@[k / 8], k % 8));
        }
        assert(bytes_bits(slice@) =~= bytes_bits(old(slice)@).update(ndx as int, bit));
    }
}

/// Flip the `ndx`th bit of the byte sequence.
pub fn slice_flip(slice: &mut Vec<u8>, ndx: usize)
    requires
        (ndx as int) < old(slice)@.len() * 8,
    ensures
        final(slice)@.len() == old(slice)@.len(),
        bytes_bits(final(slice)@) == bytes_bits(old(slice)@).update(
            ndx as int,
            !bytes_bits(old(slice)@)[ndx as int],
        ),
{
    let i: usize = ndx / 8;
    proof {
        assert(ndx as int == 8 * (ndx as int / 8) + ndx as int % 8);
    }
    let b: u8 = element_flip(slice[i], ndx % 8);
    slice.set(i, b);
    proof {
        let n = old(slice)@.len();
        let v = !bytes_bits(old(slice)@)[ndx as int];
        assert forall|k: int| 0 <= k < n * 8 implies bytes_bits(slice@)[k] == bytes_bits(
            old(slice)@,
        ).update(ndx as int, v)[k] by {
            assert(k == 8 * (k / 8) + k % 8);
            assert(bytes_bits(slice@)[k] == byte_bit(slice@[k / 8], k % 8));
            assert(bytes_bits(old(slice)@)[k] == byte_bit(old(slice)@[k / 8], k % 8));
        }
        assert(bytes_bits(slice@) =~= bytes_bits(old(slice)@).update(ndx as int, v));
    }
}

/// Whether all bits of the byte sequence from `ndx` on are false;
/// vacuously true past the end.
pub fn slice_is_false_from(slice: &Vec<u8>, ndx: usize) -> (r: bool)
    ensures
        r == false_from(bytes_bits(slice@), ndx as int),
{
    let n: usize = slice.len();
    let first: usize = ndx / 8;
    proof {
        assert(ndx as int == 8 * (ndx as int / 8) + ndx as int % 8);
    }
    if first >= n {
        return true;
    }
    if !element_is_false_from(slice[first], ndx % 8) {
        proof {
            let e = ndx as int % 8;
            let bb = byte_bits(slice@[first as int]);
            assert(exists|j: int| e <= j < 8 && bb[j]);
            let j = choose|j: int| e <= j < 8 && bb[j];
            assert(bytes_bits(slice@)[8 * first + j] == byte_bit(slice@[first as int], j)) by {
                vstd::arithmetic::div_mod::lemma_fundamental_div_mod_converse(
                    8 * (first as int) + j,
                    8,
                    first as int,
                    j,
                );
            }
            assert(bytes_bits(slice@)[8 * first + j]);
        }
        return false;
    }
    let mut i: usize = first + 1;
    while i < n
        invariant
            first + 1 <= i <= n,
            n == slice@.len(),
            (ndx as int) < 8 * (first as int) + 8,
            forall|t: int| first < t < i ==> slice@[t] == 0,
        decreases n - i,
    {
        if slice[i] != 0 {
            proof {
                let bb = byte_bits(slice@[i as int]);
                crate::bits::lemma_byte_bits_value(slice@[i as int]);
                crate::bits::lemma_bits_value_all_false(bb);
                assert(!false_from(bb, 0));
                assert(exists|j: int| 0 <= j < 8 && bb[j]);
                let j = choose|j: int| 0 <= j < 8 && bb[j];
                assert(bytes_bits(slice@)[8 * i + j] == byte_bit(slice@[i as int], j)) by {
                    vstd::arithmetic::div_mod::lemma_fundamental_div_mod_converse(
                        8 * (i as int) + j,
                        8,
                        i as int,
                        j,
                    );
                }
                assert(bytes_bits(slice@)[8 * i + j]);
                assert(8 * i + j >= ndx);
            }
            return false;
        }
        i = i + 1;
    }
    proof {
        lemma_byte_extremes();
        assert forall|k: int| ndx <= k < n * 8 implies !bytes_bits(slice@)[k] by {
            assert(k == 8 * (k / 8) + k % 8);
            assert(bytes_bits(slice@)[k] == byte_bit(slice@[k / 8], k % 8));
            if k / 8 == first {
                assert(k % 8 >= ndx as int % 8);
                assert(!byte_bits(slice@[first as int])[k % 8]);
            } else {
                assert(slice@[k / 8] == 0);
            }
        }
    }
    true
}

/// Whether all bits of the byte sequence from `ndx` on are true;
/// vacuously true past the end.
pub fn slice_is_true_from(slice: &Vec<u8>, ndx: usize) -> (r: bool)
    ensures
        r == true_from(bytes_bits(slice@), ndx as int),
{
    let n: usize = slice.len();
    let first: usize = ndx / 8;
    proof {
        assert(ndx as int == 8 * (ndx as int / 8) + ndx as int % 8);
    }
    if first >= n {
        return true;
    }
    if !element_is_true_from(slice[first], ndx % 8) {
        proof {
            let e = ndx as int % 8;
            let bb = byte_bits(slice@[first as int]);
            assert(exists|j: int| e <= j < 8 && !bb[j]);
            let j = choose|j: int| e <= j < 8 && !bb[j];
            assert(bytes_bits(slice@)[8 * first + j] == byte_bit(slice@[first as int], j)) by {
                vstd::arithmetic::div_mod::lemma_fundamental_div_mod_converse(
                    8 * (first as int) + j,
                    8,
                    first as int,
                    j,
                );
            }
            assert(!bytes_bits(slice@)[8 * first + j]);
        }
        return false;
    }
    let mut i: usize = first + 1;
    while i < n
        invariant
            first + 1 <= i <= n,
            n == slice@.len(),
            (ndx as int) < 8 * (first as int) + 8,
            forall|t: int| first < t < i ==> slice@[t] == 0xff,
        decreases n - i,
    {
        if slice[i] != 0xff {
            proof {
                let bb = byte_bits(slice@[i as int]);
                crate::bits::lemma_byte_bits_value(slice@[i as int]);
                crate::bits::lemma_bits_value_all_true(bb);
                vstd::arithmetic::power2::lemma2_to64();
                assert(!true_from(bb, 0));
                assert(exists|j: int| 0 <= j < 8 && !bb[j]);
                let j = choose|j: int| 0 <= j < 8 && !bb[j];
                assert(bytes_bits(slice@)[8 * i + j] == byte_bit(slice@[i as int], j)) by {
                    vstd::arithmetic::div_mod::lemma_fundamental_div_mod_converse(
                        8 * (i as int) + j,
                        8,
                        i as int,
                        j,
                    );
                }
                assert(!bytes_bits(slice@)[8 * i + j]);
                assert(8 * i + j >= ndx);
            }
            return false;
        }
        i = i + 1;
    }
    proof {
        lemma_byte_extremes();
        assert forall|k: int| ndx <= k < n * 8 implies bytes_bits(slice@)[k] by {
            assert(k == 8 * (k / 8) + k % 8);
            assert(bytes_bits(slice@)[k] == byte_bit(slice@[k / 8], k % 8));
            if k / 8 == first {
                assert(k % 8 >= ndx as int % 8);
                assert(byte_bits(slice@[first as int])[k % 8]);
            } else {
                assert(slice@[k / 8] == 0xff);
            }
        }
    }
    true
}

/// Set all bits of the byte sequence from `ndx` on to false; does nothing
/// past the end.
pub fn slice_set_false_from(slice: &mut Vec<u8>, ndx: usize)
    ensures
        final(slice)@.len() == old(slice)@.len(),
        forall|k: int|
            0 <= k < old(slice)@.len() * 8 ==> bytes_bits(final(slice)@)[k] == (k < ndx
                && bytes_bits(old(slice)@)[k]),
{
    let n: usize = slice.len();
    let first: usize = ndx / 8;
    proof {
        assert(ndx as int == 8 * (ndx as int / 8) + ndx as int % 8);
    }
    if first >= n {
        return ;
    }
    let b: u8 = element_set_false_from(slice[first], ndx % 8);
    slice.set(first, b);
    let mut i: usize = first + 1;
    while i < n
        invariant
            first + 1 <= i <= n,
            n == slice@.len(),
            slice@.len() == old(slice)@.len(),
            slice@[first as int] == b,
            forall|t: int| 0 <= t < old(slice)@.len() && t != first ==> (first < t < i
                ==> slice@[t] == 0) && (!(first < t < i) ==> slice@[t] == old(slice)@[t]),
        decreases n - i,
    {
        slice.set(i, 0);
        i = i + 1;
    }
    proof {
        lemma_byte_extremes();
        assert forall|k: int| 0 <= k < old(slice)@.len() * 8 implies bytes_bits(slice@)[k] == (k
            < ndx && bytes_bits(old(slice)@)[k]) by {
            assert(k == 8 * (k / 8) + k % 8);
            assert(bytes_bits(slice@)[k] == byte_bit(slice@[k / 8], k % 8));
            assert(bytes_bits(old(slice)@)[k] == byte_bit(old(slice)@[k / 8], k % 8));
            if k / 8 == first {
                assert(byte_bit(b, k % 8) == (k % 8 < ndx as int % 8 && byte_bit(
                    old(slice)@[first as int],
                    k % 8,
                )));
            } else if k / 8 > first {
                assert(slice@[k / 8] == 0);
                assert(!byte_bit(0u8, k % 8));
            }
        }
    }
}

/// Set all bits of the byte sequence from `ndx` on to true; does nothing
/// past the end.
pub fn slice_set_true_from(slice: &mut Vec<u8>, ndx: usize)
    ensures
        final(slice)@.len() == old(slice)@.len(),
        forall|k: int|
            0 <= k < old(slice)@.len() * 8 ==> bytes_bits(final(slice)@)[k] == (k >= ndx
                || bytes_bits(old(slice)@)[k]),
{
    let n: usize = slice.len();
    let first: usize = ndx / 8;
    proof {
        assert(ndx as int == 8 * (ndx as int / 8) + ndx as int % 8);
    }
    if first >= n {
        return ;
    }
    let b: u8 = element_set_true_from(slice[first], ndx % 8);
    slice.set(first, b);
    let mut i: usize = first + 1;
    while i < n
        invariant
            first + 1 <= i <= n,
            n == slice@.len(),
            slice@.len() == old(slice)@.len(),
            slice@[first as int] == b,
            forall|t: int| 0 <= t < old(slice)@.len() && t != first ==> (first < t < i
                ==> slice@[t] == 0xff) && (!(first < t < i) ==> slice@[t] == old(slice)@[t]),
        decreases n - i,
    {
        slice.set(i, 0xff);
        i = i + 1;
    }
    proof {
        lemma_byte_extremes();
        assert forall|k: int| 0 <= k < old(slice)@.len() * 8 implies bytes_bits(slice@)[k] == (k
            >= ndx || bytes_bits(old(slice)@)[k]) by {
            assert(k == 8 * (k / 8) + k % 8);
            assert(bytes_bits(slice@)[k] == byte_bit(slice@[k / 8], k % 8));
            assert(bytes_bits(old(slice)@)[k] == byte_bit(old(slice)@[k / 8], k % 8));
            if k / 8 == first {
                assert(byte_bit(b, k % 8) == (k % 8 >= ndx as int % 8 || byte_bit(
                    old(slice)@[first as int],
                    k % 8,
                )));
            } else if k / 8 > first {
                assert(slice@[k / 8] == 0xff);
                assert(byte_bit(0xffu8, k % 8));
            }
        }
    }
}

/// Whether `other` shares the first `prefix` bits with `slice`.
pub fn slice_contains(slice: &Vec<u8>, prefix: usize, other: &Vec<u8>) -> (r: bool)
    requires
        other@.len() == slice@.len(),
        prefix as int <= slice@.len() * 8,
    ensures
        r == agree_below(bytes_bits(slice@), bytes_bits(other@), prefix as int),
{
    let n: usize = slice.len();
    let full: usize = prefix / 8;
    proof {
        assert(prefix as int == 8 * (prefix as int / 8) + prefix as int % 8);
    }
    let mut i: usize = 0;
    while i < full
        invariant
            i <= full,
            n == slice@.len(),
            other@.len() == slice@.len(),
            8 * (full as int) <= prefix as int,
            prefix as int <= slice@.len() * 8,
            forall|t: int| 0 <= t < i ==> slice@[t] == other@[t],
        decreases full - i,
    {
        proof {
            assert(8 * (i as int) < 8 * (full as int));
        }
        if slice[i] != other[i] {
            proof {
                let a = slice@[i as int];
                let b = other@[i as int];
                if agree_below(bytes_bits(slice@), bytes_bits(other@), prefix as int) {
                    assert forall|j: int| 0 <= j < 8 implies byte_bit(a, j) == byte_bit(b, j) by {
                        let k = 8 * (i as int) + j;
                        vstd::arithmetic::div_mod::lemma_fundamental_div_mod_converse(
                            k,
                            8,
                            i as int,
                            j,
                        );
                        assert(bytes_bits(slice@)[k] == bytes_bits(other@)[k]);
                        assert(bytes_bits(slice@)[k] == byte_bit(a, j));
                        assert(bytes_bits(other@)[k] == byte_bit(b, j));
                    }
                    lemma_byte_eq(a, b);
                }
            }
            return false;
        }
        i = i + 1;
    }
    let e: usize = prefix % 8;
    if e == 0 {
        proof {
            assert forall|k: int| 0 <= k < prefix implies bytes_bits(slice@)[k] == bytes_bits(
                other@,
            )[k] by {
                assert(k == 8 * (k / 8) + k % 8);
                assert(slice@[k / 8] == other@[k / 8]);
                assert(bytes_bits(slice@)[k] == byte_bit(slice@[k / 8], k % 8));
                assert(bytes_bits(other@)[k] == byte_bit(other@[k / 8], k % 8));
            }
        }
        return true;
    }
    let r: bool = element_contains(slice[full], e, other[full]);
    proof {
        let a = slice@[full as int];
        let b = other@[full as int];
        if r {
            assert forall|k: int| 0 <= k < prefix implies bytes_bits(slice@)[k] == bytes_bits(
                other@,
            )[k] by {
                assert(k == 8 * (k / 8) + k % 8);
                assert(bytes_bits(slice@)[k] == byte_bit(slice@[k / 8], k % 8));
                assert(bytes_bits(other@)[k] == byte_bit(other@[k / 8], k % 8));
                if k / 8 == full {
                    assert(byte_bits(a)[k % 8] == byte_bits(b)[k % 8]);
                } else {
                    assert(slice@[k / 8] == other@[k / 8]);
                }
            }
        } else {
            assert(!agree_below(byte_bits(a), byte_bits(b), e as int));
            assert(exists|j: int| 0 <= j < e && byte_bits(a)[j] != byte_bits(b)[j]);
            let j = choose|j: int| 0 <= j < e && byte_bits(a)[j] != byte_bits(b)[j];
            let k = 8 * (full as int) + j;
            vstd::arithmetic::div_mod::lemma_fundamental_div_mod_converse(k, 8, full as int, j);
            assert(bytes_bits(slice@)[k] == byte_bit(a, j));
            assert(bytes_bits(other@)[k] == byte_bit(b, j));
            assert(bytes_bits(slice@)[k] != bytes_bits(other@)[k]);
            assert(k < prefix);
        }
    }
    r
}

/// Length of the longest shared prefix of two byte sequences, capped at
/// `max_len`.
pub fn slice_shared_prefix_len(slice: &Vec<u8>, other: &Vec<u8>, max_len: usize) -> (r: usize)
    requires
        other@.len() == slice@.len(),
        max_len as int <= slice@.len() * 8,
    ensures
        r as nat == shared_prefix(bytes_bits(slice@), bytes_bits(other@), max_len as nat),
{
    let ghost sb = bytes_bits(slice@);
    let ghost ob = bytes_bits(other@);
    if max_len == 0 {
        proof {
            crate::bits::lemma_shared_prefix_unique(sb, ob, 0, 0);
        }
        return 0;
    }
    let last: usize = (max_len - 1) / 8;
    proof {
        assert(max_len as int - 1 == 8 * ((max_len as int - 1) / 8) + (max_len as int - 1) % 8);
    }
    let mut i: usize = 0;
    while i < last
        invariant
            i <= last,
            other@.len() == slice@.len(),
            max_len as int <= slice@.len() * 8,
            8 * (last as int) < max_len as int,
            max_len as int <= 8 * (last as int) + 8,
            sb == bytes_bits(slice@),
            ob == bytes_bits(other@),
            forall|t: int| 0 <= t < i ==> slice@[t] == other@[t],
        decreases last - i,
    {
        proof {
            assert(8 * (i as int) + 8 <= 8 * (last as int));
        }
        if slice[i] != other[i] {
            let spl: usize = element_shared_prefix_len(slice[i], other[i], 8);
            let r: usize = 8 * i + spl;
            proof {
                let a = slice@[i as int];
                let b = other@[i as int];
                crate::bits::lemma_shared_prefix_props(byte_bits(a), byte_bits(b), 8);
                if spl == 8 {
                    assert forall|t: int| 0 <= t < 8 implies byte_bit(a, t) == byte_bit(b, t) by {
                        assert(byte_bits(a)[t] == byte_bits(b)[t]);
                    }
                    lemma_byte_eq(a, b);
                }
                assert(spl < 8);
                assert forall|k: int| 0 <= k < r implies sb[k] == ob[k] by {
                    assert(k == 8 * (k / 8) + k % 8);
                    assert(sb[k] == byte_bit(slice@[k / 8], k % 8));
                    assert(ob[k] == byte_bit(other@[k / 8], k % 8));
                    if k / 8 == i {
                        assert(byte_bits(a)[k % 8] == byte_bits(b)[k % 8]);
                    } else {
                        assert(slice@[k / 8] == other@[k / 8]);
                    }
                }
                vstd::arithmetic::div_mod::lemma_fundamental_div_mod_converse(
                    r as int,
                    8,
                    i as int,
                    spl as int,
                );
                assert(sb[r as int] == byte_bit(a, spl as int));
                assert(ob[r as int] == byte_bit(b, spl as int));
                assert(byte_bits(a)[spl as int] != byte_bits(b)[spl as int]);
                assert(r < max_len);
                crate::bits::lemma_shared_prefix_unique(sb, ob, max_len as nat, r as int);
            }
            return r;
        }
        i = i + 1;
    }
    let cap: usize = max_len - 8 * last;
    let spl: usize = element_shared_prefix_len(slice[last], other[last], cap);
    let r: usize = 8 * last + spl;
    proof {
        let a = slice@[last as int];
        let b = other@[last as int];
        crate::bits::lemma_shared_prefix_props(byte_bits(a), byte_bits(b), cap as nat);
        assert forall|k: int| 0 <= k < r implies sb[k] == ob[k] by {
            assert(k == 8 * (k / 8) + k % 8);
            assert(sb[k] == byte_bit(slice@[k / 8], k % 8));
            assert(ob[k] == byte_bit(other@[k / 8], k % 8));
            if k / 8 == last {
                assert(byte_bits(a)[k % 8] == byte_bits(b)[k % 8]);
            } else {
                assert(slice@[k / 8] == other@[k / 8]);
            }
        }
        if r < max_len {
            assert(spl < cap);
            vstd::arithmetic::div_mod::lemma_fundamental_div_mod_converse(
                r as int,
                8,
                last as int,
                spl as int,
            );
            assert(sb[r as int] == byte_bit(a, spl as int));
            assert(ob[r as int] == byte_bit(b, spl as int));
            assert(byte_bits(a)[spl as int] != byte_bits(b)[spl as int]);
        }
        crate::bits::lemma_shared_prefix_unique(sb, ob, max_len as nat, r as int);
    }
    r
}

/// Increment the byte sequence from the right without touching the first
/// `prefix` bits; overflow wraps the free bits to all false and is
/// reported.
pub fn slice_inc(slice: &mut Vec<u8>, prefix: usize) -> (overflow: bool)
    requires
        prefix as int <= old(slice)@.len() * 8,
    ensures
        final(slice)@.len() == old(slice)@.len(),
        bytes_bits(final(slice)@) == inc_bits(bytes_bits(old(slice)@), prefix as int),
        overflow == inc_overflow(bytes_bits(old(slice)@), prefix as int),
{
    let ghost olds = bytes_bits(old(slice)@);
    let n: usize = slice.len();
    let first: usize = prefix / 8;
    proof {
        assert(prefix as int == 8 * (prefix as int / 8) + prefix as int % 8);
    }
    if first >= n {
        proof {
            assert(prefix as int == slice@.len() * 8);
            crate::bits::lemma_inc_wrap(olds, olds, prefix as int);
        }
        return true;
    }
    let mut i: usize = n;
    while i > first + 1
        invariant
            first + 1 <= i <= n,
            n == slice@.len(),
            slice@.len() == old(slice)@.len(),
            (prefix as int) < 8 * (first as int) + 8,
            first < n,
            olds == bytes_bits(old(slice)@),
            forall|t: int| 0 <= t < i ==> slice@[t] == old(slice)@[t],
            forall|t: int| i <= t < n ==> slice@[t] == 0,
            forall|t: int| i <= t < n ==> old(slice)@[t] == 0xff,
        decreases i,
    {
        i = i - 1;
        let b: u8 = slice[i];
        let rr: (u8, bool) = element_inc(b, 0);
        slice.set(i, rr.0);
        proof {
            crate::bits::lemma_byte_bits_value(b);
            crate::bits::lemma_bits_value_all_true(byte_bits(b));
            vstd::arithmetic::power2::lemma2_to64();
            crate::bits::lemma_inc_bits_props(byte_bits(b), 0);
        }
        if !rr.1 {
            proof {
                let news = bytes_bits(slice@);
                let lo = 8 * (i as int);
                let hi = lo + 8;
                crate::bits::lemma_bytes_bits_byte(slice@, i as int);
                crate::bits::lemma_bytes_bits_byte(old(slice)@, i as int);
                assert(news.subrange(lo, hi) == byte_bits(rr.0));
                assert(olds.subrange(lo, hi) == byte_bits(b));
                assert(bits_value(byte_bits(rr.0)) == bits_value(byte_bits(b)) + 1) by {
                    assert(byte_bits(rr.0) == inc_bits(byte_bits(b), 0));
                    assert(inc_bits(byte_bits(b), 0).skip(0) =~= inc_bits(byte_bits(b), 0));
                    assert(byte_bits(b).skip(0) =~= byte_bits(b));
                }
                assert(agree_below(olds, news, lo)) by {
                    assert forall|k: int| 0 <= k < lo implies olds[k] == news[k] by {
                        assert(k == 8 * (k / 8) + k % 8);
                        assert(olds[k] == byte_bit(old(slice)@[k / 8], k % 8));
                        assert(news[k] == byte_bit(slice@[k / 8], k % 8));
                        assert(slice@[k / 8] == old(slice)@[k / 8]);
                    }
                }
                lemma_byte_extremes();
                assert(true_from(olds, hi)) by {
                    assert forall|k: int| hi <= k < olds.len() implies olds[k] by {
                        assert(k == 8 * (k / 8) + k % 8);
                        assert(olds[k] == byte_bit(old(slice)@[k / 8], k % 8));
                        assert(old(slice)@[k / 8] == 0xff);
                    }
                }
                assert(false_from(news, hi)) by {
                    assert forall|k: int| hi <= k < news.len() implies !news[k] by {
                        assert(k == 8 * (k / 8) + k % 8);
                        assert(news[k] == byte_bit(slice@[k / 8], k % 8));
                        assert(slice@[k / 8] == 0);
                    }
                }
                crate::bits::lemma_inc_parts(olds, news, prefix as int, lo, hi);
            }
            return false;
        }
        proof {
            assert(b == 0xff) by {
                assert(inc_overflow(byte_bits(b), 0));
                assert(bits_value(byte_bits(b)) == 255);
            }
            assert(rr.0 == 0) by {
                crate::bits::lemma_byte_bits_value(rr.0);
                crate::bits::lemma_bits_value_all_false(byte_bits(rr.0));
                assert(false_from(byte_bits(rr.0), 0));
            }
        }
    }
    let e: usize = prefix % 8;
    let bf: u8 = slice[first];
    let rr: (u8, bool) = element_inc(bf, e);
    slice.set(first, rr.0);
    proof {
        assert(bf == old(slice)@[first as int]);
        let news = bytes_bits(slice@);
        let fb = byte_bits(bf);
        crate::bits::lemma_bytes_bits_byte(slice@, first as int);
        crate::bits::lemma_bytes_bits_byte(old(slice)@, first as int);
        crate::bits::lemma_inc_bits_props(fb, e as int);
        lemma_byte_extremes();
        assert(agree_below(olds, news, prefix as int)) by {
            assert forall|k: int| 0 <= k < prefix implies olds[k] == news[k] by {
                assert(k == 8 * (k / 8) + k % 8);
                assert(olds[k] == byte_bit(old(slice)@[k / 8], k % 8));
                assert(news[k] == byte_bit(slice@[k / 8], k % 8));
                if k / 8 == first {
                    assert(byte_bits(rr.0).take(e as int)[k % 8] == fb.take(e as int)[k % 8]);
                } else {
                    assert(slice@[k / 8] == old(slice)@[k / 8]);
                }
            }
        }
        assert(true_from(olds, 8 * (first as int) + 8) ==> true_from(olds, prefix as int)
            == true_from(fb, e as int)) by {
            if true_from(olds, 8 * (first as int) + 8) {
                if true_from(fb, e as int) {
                    assert forall|k: int| prefix <= k < olds.len() implies olds[k] by {
                        assert(k == 8 * (k / 8) + k % 8);
                        assert(olds[k] == byte_bit(old(slice)@[k / 8], k % 8));
                        if k / 8 == first {
                            assert(fb[k % 8]);
                        }
                    }
                }
                if true_from(olds, prefix as int) {
                    assert forall|k: int| e <= k < 8 implies fb[k] by {
                        let g = 8 * (first as int) + k;
                        vstd::arithmetic::div_mod::lemma_fundamental_div_mod_converse(
                            g,
                            8,
                            first as int,
                            k,
                        );
                        assert(olds[g] == byte_bit(old(slice)@[g / 8], g % 8));
                        assert(olds[g]);
                    }
                }
            }
        }
        assert(true_from(olds, 8 * (first as int) + 8)) by {
            assert forall|k: int| 8 * (first as int) + 8 <= k < olds.len() implies olds[k] by {
                assert(k == 8 * (k / 8) + k % 8);
                assert(olds[k] == byte_bit(old(slice)@[k / 8], k % 8));
                assert(old(slice)@[k / 8] == 0xff);
            }
        }
        if rr.1 {
            assert(true_from(olds, prefix as int)) by {
                assert forall|k: int| prefix <= k < olds.len() implies olds[k] by {
                    assert(k == 8 * (k / 8) + k % 8);
                    assert(olds[k] == byte_bit(old(slice)@[k / 8], k % 8));
                    if k / 8 == first {
                        assert(fb[k % 8]);
                    } else {
                        assert(old(slice)@[k / 8] == 0xff);
                    }
                }
            }
            assert(false_from(news, prefix as int)) by {
                assert forall|k: int| prefix <= k < news.len() implies !news[k] by {
                    assert(k == 8 * (k / 8) + k % 8);
                    assert(news[k] == byte_bit(slice@[k / 8], k % 8));
                    if k / 8 == first {
                        assert(!byte_bits(rr.0)[k % 8]);
                    } else {
                        assert(slice@[k / 8] == 0);
                        assert(!byte_bit(0u8, k % 8));
                    }
                }
            }
            crate::bits::lemma_inc_wrap(olds, news, prefix as int);
        } else {
            let lo = prefix as int;
            let hi = 8 * (first as int) + 8;
            assert(news.subrange(lo, hi) =~= byte_bits(rr.0).skip(e as int)) by {
                assert forall|k: int| 0 <= k < hi - lo implies news.subrange(lo, hi)[k]
                    == byte_bits(rr.0).skip(e as int)[k] by {
                    let g = lo + k;
                    vstd::arithmetic::div_mod::lemma_fundamental_div_mod_converse(
                        g,
                        8,
                        first as int,
                        e as int + k,
                    );
                    assert(news[g] == byte_bit(slice@[g / 8], g % 8));
                }
            }
            assert(olds.subrange(lo, hi) =~= fb.skip(e as int)) by {
                assert forall|k: int| 0 <= k < hi - lo implies olds.subrange(lo, hi)[k]
                    == fb.skip(e as int)[k] by {
                    let g = lo + k;
                    vstd::arithmetic::div_mod::lemma_fundamental_div_mod_converse(
                        g,
                        8,
                        first as int,
                        e as int + k,
                    );
                    assert(olds[g] == byte_bit(old(slice)@[g / 8], g % 8));
                }
            }
            assert(bits_value(news.subrange(lo, hi)) == bits_value(olds.subrange(lo, hi)) + 1) by {
                assert(byte_bits(rr.0) == inc_bits(fb, e as int));
            }
            assert(true_from(olds, hi));
            assert(false_from(news, hi)) by {
                assert forall|k: int| hi <= k < news.len() implies !news[k] by {
                    assert(k == 8 * (k / 8) + k % 8);
                    assert(news[k] == byte_bit(slice@[k / 8], k % 8));
                    assert(slice@[k / 8] == 0);
                    assert(!byte_bit(0u8, k % 8));
                }
            }
            crate::bits::lemma_inc_parts(olds, news, prefix as int, lo, hi);
        }
    }
    rr.1
}

/// Treat sequences of unsigned integers as big-endian bit strings.
pub trait BigEndianBitString: Sized {
    /// Bits in a single element.
    spec fn element_bits() -> nat;

    /// A single element as a big-endian bit sequence.
    spec fn element_seq(&self) -> Seq<bool>;

    /// A sequence of elements as one big-endian bit string: element 0
    /// holds the most significant bits.
    spec fn elements_bits(s: Seq<Self>) -> Seq<bool>;

    /// Every element's bit sequence has the element width.
    proof fn lemma_element_seq_len(&self)
        ensures
            self.element_seq().len() == Self::element_bits(),
    ;

    /// The bit string of a sequence concatenates the elements' bits in
    /// order.
    proof fn lemma_elements_bits(s: Seq<Self>)
        ensures
            Self::elements_bits(s).len() == s.len() * Self::element_bits(),
            forall|i: int|
                0 <= i < s.len() * Self::element_bits() ==> Self::elements_bits(s)[i] == s[i / (
                Self::element_bits() as int)].element_seq()[i % (Self::element_bits() as int)],
    ;

    /// Integer with a single bit set; bit 0 is the highest bit. Wraps at
    /// the element width.
    fn mask(ndx: usize) -> (r: Self)
        requires
            Self::element_bits() > 0,
        ensures
            forall|i: int|
                0 <= i < Self::element_bits() ==> (r.element_seq()[i] <==> i == (ndx as int) % (
                Self::element_bits() as int)),
    ;

    /// Increment from the right without touching the first `prefix`
    /// bits; overflow wraps the free bits to all false and is reported.
    fn inc(slice: &mut Vec<Self>, prefix: usize) -> (overflow: bool)
        requires
            prefix as int <= old(slice)@.len() * Self::element_bits(),
        ensures
            final (slice)@.len() == old(slice)@.len(),
            Self::elements_bits(final (slice)@) == inc_bits(Self::elements_bits(old(slice)@), prefix as int),
            overflow == inc_overflow(Self::elements_bits(old(slice)@), prefix as int),
    ;

    /// Get the `ndx`th bit.
    fn get(slice: &Vec<Self>, ndx: usize) -> (r: bool)
        requires
            (ndx as int) < slice@.len() * Self::element_bits(),
        ensures
            r == Self::elements_bits(slice@)[ndx as int],
    ;

    /// Set the `ndx`th bit to `bit`.
    fn set(slice: &mut Vec<Self>, ndx: usize, bit: bool)
        requires
            (ndx as int) < old(slice)@.len() * Self::element_bits(),
        ensures
            final (slice)@.len() == old(slice)@.len(),
            Self::elements_bits(final (slice)@) == Self::elements_bits(old(slice)@).update(ndx as int, bit),
    ;

    /// Flip the `ndx`th bit.
    fn flip(slice: &mut Vec<Self>, ndx: usize)
        requires
            (ndx as int) < old(slice)@.len() * Self::element_bits(),
        ensures
            final (slice)@.len() == old(slice)@.len(),
            Self::elements_bits(final (slice)@) == Self::elements_bits(old(slice)@).update(
                ndx as int,
                !Self::elements_bits(old(slice)@)[ndx as int],
            ),
    ;

    /// Length of the longest shared prefix of two bit strings, capped at
    /// `max_len`.
    fn shared_prefix_len(slice: &Vec<Self>, other: &Vec<Self>, max_len: usize) -> (r: usize)
        requires
            other@.len() == slice@.len(),
            max_len as int <= slice@.len() * Self::element_bits(),
        ensures
            r as nat == shared_prefix(
                Self::elements_bits(slice@),
                Self::elements_bits(other@),
                max_len as nat,
            ),
    ;

    /// Set all bits from `ndx` on to false; does nothing past the end.
    fn set_false_from(slice: &mut Vec<Self>, ndx: usize)
        ensures
            final (slice)@.len() == old(slice)@.len(),
            forall|k: int|
                0 <= k < old(slice)@.len() * Self::element_bits() ==> Self::elements_bits(
                    final (slice)@,
                )[k] == (k < ndx && Self::elements_bits(old(slice)@)[k]),
    ;

    /// Whether all bits from `ndx` on are false; vacuously true past the
    /// end.
    fn is_false_from(slice: &Vec<Self>, ndx: usize) -> (r: bool)
        ensures
            r == false_from(Self::elements_bits(slice@), ndx as int),
    ;

    /// Set all bits from `ndx` on to true; does nothing past the end.
    fn set_true_from(slice: &mut Vec<Self>, ndx: usize)
        ensures
            final (slice)@.len() == old(slice)@.len(),
            forall|k: int|
                0 <= k < old(slice)@.len() * Self::element_bits() ==> Self::elements_bits(
                    final (slice)@,
                )[k] == (k >= ndx || Self::elements_bits(old(slice)@)[k]),
    ;

    /// Whether all bits from `ndx` on are true; vacuously true past the
    /// end.
    fn is_true_from(slice: &Vec<Self>, ndx: usize) -> (r: bool)
        ensures
            r == true_from(Self::elements_bits(slice@), ndx as int),
    ;

    /// Whether another bit string `other` shares the first `prefix` bits
    /// with `slice`.
    fn contains(slice: &Vec<Self>, prefix: usize, other: &Vec<Self>) -> (r: bool)
        requires
            other@.len() == slice@.len(),
            prefix as int <= slice@.len() * Self::element_bits(),
        ensures
            r == agree_below(Self::elements_bits(slice@), Self::elements_bits(other@), prefix as int),
    ;
}

impl BigEndianBitString for u8 {
    open spec fn element_bits() -> nat {
        8
    }

    open spec fn element_seq(&self) -> Seq<bool> {
        byte_bits(*self)
    }

    open spec fn elements_bits(s: Seq<u8>) -> Seq<bool> {
        bytes_bits(s)
    }

    proof fn lemma_element_seq_len(&self) {
    }

    proof fn lemma_elements_bits(s: Seq<u8>) {
    }

    fn mask(ndx: usize) -> Self {
        mask(ndx)
    }

    fn inc(slice: &mut Vec<Self>, prefix: usize) -> bool {
        let overflow: bool = slice_inc(slice, prefix);
        overflow
    }

    fn get(slice: &Vec<Self>, ndx: usize) -> bool {
        slice_get(slice, ndx)
    }

    fn set(slice: &mut Vec<Self>, ndx: usize, bit: bool) {
        slice_set(slice, ndx, bit);
    }

    fn flip(slice: &mut Vec<Self>, ndx: usize) {
        slice_flip(slice, ndx);
    }

    fn shared_prefix_len(slice: &Vec<Self>, other: &Vec<Self>, max_len: usize) -> usize {
        slice_shared_prefix_len(slice, other, max_len)
    }

    fn set_false_from(slice: &mut Vec<Self>, ndx: usize) {
        slice_set_false_from(slice, ndx);
    }

    fn is_false_from(slice: &Vec<Self>, ndx: usize) -> bool {
        slice_is_false_from(slice, ndx)
    }

    fn set_true_from(slice: &mut Vec<Self>, ndx: usize) {
        slice_set_true_from(slice, ndx);
    }

    fn is_true_from(slice: &Vec<Self>, ndx: usize) -> bool {
        slice_is_true_from(slice, ndx)
    }

    fn contains(slice: &Vec<Self>, prefix: usize, other: &Vec<Self>) -> bool {
        slice_contains(slice, prefix, other)
    }
}

} // verus!
