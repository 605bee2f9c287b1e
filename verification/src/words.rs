//! `FixedBitString` for the unsigned machine words, realized by reading a
//! word as its big-endian bytes and delegating to the byte-level
//! operations.

use vstd::prelude::*;

verus! {

use crate::bigendian::{
    mask,
    slice_flip,
    BigEndianBitString,
    element_contains,
    element_get,
    element_inc,
    element_is_false_from,
    element_is_true_from,
    element_set,
    element_set_false_from,
    element_set_true_from,
    element_shared_prefix_len,
    lemma_byte_extremes,
    slice_contains,
    slice_get,
    slice_inc,
    slice_is_false_from,
    slice_is_true_from,
    slice_set,
    slice_set_false_from,
    slice_set_true_from,
    slice_shared_prefix_len,
};
use crate::bits::byte_bit;
use crate::bits::byte_bits;
use crate::bits::bytes_bits;
use crate::fixed_bit_string::{FixedBitString, Iter};

impl FixedBitString for u8 {
    open spec fn bits(&self) -> Seq<bool> {
        byte_bits(*self)
    }

    open spec fn spec_len() -> nat {
        8
    }

    proof fn lemma_bits_len(&self) {
    }

    fn len() -> usize {
        8
    }

    fn inc(&mut self, prefix: usize) -> bool {
        let rr: (u8, bool) = element_inc(*self, prefix);
        *self = rr.0;
        rr.1
    }

    fn iter(&self, prefix: usize) -> Iter<u8> {
        Iter::new(*self, prefix)
    }

    fn get(&self, ndx: usize) -> bool {
        element_get(*self, ndx)
    }

    fn set(&mut self, ndx: usize, bit: bool) {
        let r: u8 = element_set(*self, ndx, bit);
        proof {
            assert(byte_bits(r) =~= byte_bits(*self).update(ndx as int, bit));
        }
        *self = r;
    }

    fn flip(&mut self, ndx: usize) {
        let r: u8 = crate::bigendian::element_flip(*self, ndx);
        proof {
            assert(byte_bits(r) =~= byte_bits(*self).update(
                ndx as int,
                !byte_bits(*self)[ndx as int],
            ));
        }
        *self = r;
    }

    fn shared_prefix_len(&self, other: &Self) -> usize {
        element_shared_prefix_len(*self, *other, 8)
    }

    fn set_false_from(&mut self, ndx: usize) {
        *self = element_set_false_from(*self, ndx);
    }

    fn is_false_from(&self, ndx: usize) -> bool {
        element_is_false_from(*self, ndx)
    }

    fn set_true_from(&mut self, ndx: usize) {
        *self = element_set_true_from(*self, ndx);
    }

    fn is_true_from(&self, ndx: usize) -> bool {
        element_is_true_from(*self, ndx)
    }

    fn new_all_false() -> Self {
        proof {
            lemma_byte_extremes();
        }
        0
    }

    fn new_all_true() -> Self {
        proof {
            lemma_byte_extremes();
        }
        0xff
    }

    fn contains(&self, prefix: usize, other: &Self) -> bool {
        element_contains(*self, prefix, *other)
    }
}

/// A 16-bit word as its two big-endian bytes.
pub open spec fn u16_bytes(w: u16) -> Seq<u8> {
    seq![(w >> 8u16) as u8, w as u8]
}

fn u16_to_vec(w: u16) -> (r: Vec<u8>)
    ensures
        r@ == u16_bytes(w),
{
    let mut r: Vec<u8> = Vec::new();
    r.push((w >> 8u16) as u8);
    r.push(w as u8);
    proof {
        assert(r@ =~= u16_bytes(w));
    }
    r
}

fn u16_from_vec(v: &Vec<u8>) -> (r: u16)
    requires
        v@.len() == 2,
    ensures
        u16_bytes(r) == v@,
{
    let b0: u8 = v[0];
    let b1: u8 = v[1];
    let r: u16 = ((b0 as u16) << 8u16) | (b1 as u16);
    proof {
        assert((r >> 8u16) as u8 == b0 && r as u8 == b1) by (bit_vector)
            requires
                r == ((b0 as u16) << 8u16) | (b1 as u16),
        ;
        assert(u16_bytes(r) =~= v@);
    }
    r
}

impl FixedBitString for u16 {
    open spec fn bits(&self) -> Seq<bool> {
        bytes_bits(u16_bytes(*self))
    }

    open spec fn spec_len() -> nat {
        16
    }

    proof fn lemma_bits_len(&self) {
    }

    fn len() -> usize {
        16
    }

    fn inc(&mut self, prefix: usize) -> bool {
        let mut v: Vec<u8> = u16_to_vec(*self);
        let overflow: bool = slice_inc(&mut v, prefix);
        *self = u16_from_vec(&v);
        overflow
    }

    fn iter(&self, prefix: usize) -> Iter<u16> {
        Iter::new(*self, prefix)
    }

    fn get(&self, ndx: usize) -> bool {
        let v: Vec<u8> = u16_to_vec(*self);
        slice_get(&v, ndx)
    }

    fn set(&mut self, ndx: usize, bit: bool) {
        let mut v: Vec<u8> = u16_to_vec(*self);
        slice_set(&mut v, ndx, bit);
        *self = u16_from_vec(&v);
    }

    fn flip(&mut self, ndx: usize) {
        let mut v: Vec<u8> = u16_to_vec(*self);
        slice_flip(&mut v, ndx);
        *self = u16_from_vec(&v);
    }

    fn shared_prefix_len(&self, other: &Self) -> usize {
        let a: Vec<u8> = u16_to_vec(*self);
        let b: Vec<u8> = u16_to_vec(*other);
        slice_shared_prefix_len(&a, &b, 16)
    }

    fn set_false_from(&mut self, ndx: usize) {
        let mut v: Vec<u8> = u16_to_vec(*self);
        slice_set_false_from(&mut v, ndx);
        *self = u16_from_vec(&v);
    }

    fn is_false_from(&self, ndx: usize) -> bool {
        let v: Vec<u8> = u16_to_vec(*self);
        slice_is_false_from(&v, ndx)
    }

    fn set_true_from(&mut self, ndx: usize) {
        let mut v: Vec<u8> = u16_to_vec(*self);
        slice_set_true_from(&mut v, ndx);
        *self = u16_from_vec(&v);
    }

    fn is_true_from(&self, ndx: usize) -> bool {
        let v: Vec<u8> = u16_to_vec(*self);
        slice_is_true_from(&v, ndx)
    }

    fn new_all_false() -> Self {
        let mut v: Vec<u8> = Vec::new();
        v.push(0);
        v.push(0);
        let r: u16 = u16_from_vec(&v);
        proof {
            lemma_byte_extremes();
        }
        r
    }

    fn new_all_true() -> Self {
        let mut v: Vec<u8> = Vec::new();
        v.push(0xff);
        v.push(0xff);
        let r: u16 = u16_from_vec(&v);
        proof {
            lemma_byte_extremes();
        }
        r
    }

    fn contains(&self, prefix: usize, other: &Self) -> bool {
        let a: Vec<u8> = u16_to_vec(*self);
        let b: Vec<u8> = u16_to_vec(*other);
        slice_contains(&a, prefix, &b)
    }
}

/// A 32-bit word as its 4 big-endian bytes.
pub open spec fn u32_bytes(w: u32) -> Seq<u8> {
    seq![
    (w >> 24u32) as u8,
    (w >> 16u32) as u8,
    (w >> 8u32) as u8,
    w as u8,
    ]
}

fn u32_to_vec(w: u32) -> (r: Vec<u8>)
    ensures
        r@ == u32_bytes(w),
{
    let mut r: Vec<u8> = Vec::new();
    r.push((w >> 24u32) as u8);
    r.push((w >> 16u32) as u8);
    r.push((w >> 8u32) as u8);
    r.push(w as u8);
    proof {
        assert(r@ =~= u32_bytes(w));
    }
    r
}

fn u32_from_vec(v: &Vec<u8>) -> (r: u32)
    requires
        v@.len() == 4,
    ensures
        u32_bytes(r) == v@,
{
    let b0: u8 = v[0];
    let b1: u8 = v[1];
    let b2: u8 = v[2];
    let b3: u8 = v[3];
    let r: u32 = ((b0 as u32) << 24u32) | ((b1 as u32) << 16u32) | ((b2 as u32) << 8u32) | (b3 as u32);
    proof {
        assert((r >> 24u32) as u8 == b0 && (r >> 16u32) as u8 == b1 && (r >> 8u32) as u8 == b2 && r as u8 == b3) by (bit_vector)
            requires
                r == ((b0 as u32) << 24u32) | ((b1 as u32) << 16u32) | ((b2 as u32) << 8u32) | (b3 as u32),
        ;
        assert(u32_bytes(r) =~= v@);
    }
    r
}

impl FixedBitString for u32 {
    open spec fn bits(&self) -> Seq<bool> {
        bytes_bits(u32_bytes(*self))
    }

    open spec fn spec_len() -> nat {
        32
    }

    proof fn lemma_bits_len(&self) {
    }

    fn len() -> usize {
        32
    }

    fn inc(&mut self, prefix: usize) -> bool {
        let mut v: Vec<u8> = u32_to_vec(*self);
        let overflow: bool = slice_inc(&mut v, prefix);
        *self = u32_from_vec(&v);
        overflow
    }

    fn iter(&self, prefix: usize) -> Iter<u32> {
        Iter::new(*self, prefix)
    }

    fn get(&self, ndx: usize) -> bool {
        let v: Vec<u8> = u32_to_vec(*self);
        slice_get(&v, ndx)
    }

    fn set(&mut self, ndx: usize, bit: bool) {
        let mut v: Vec<u8> = u32_to_vec(*self);
        slice_set(&mut v, ndx, bit);
        *self = u32_from_vec(&v);
    }

    fn flip(&mut self, ndx: usize) {
        let mut v: Vec<u8> = u32_to_vec(*self);
        slice_flip(&mut v, ndx);
        *self = u32_from_vec(&v);
    }

    fn shared_prefix_len(&self, other: &Self) -> usize {
        let a: Vec<u8> = u32_to_vec(*self);
        let b: Vec<u8> = u32_to_vec(*other);
        slice_shared_prefix_len(&a, &b, 32)
    }

    fn set_false_from(&mut self, ndx: usize) {
        let mut v: Vec<u8> = u32_to_vec(*self);
        slice_set_false_from(&mut v, ndx);
        *self = u32_from_vec(&v);
    }

    fn is_false_from(&self, ndx: usize) -> bool {
        let v: Vec<u8> = u32_to_vec(*self);
        slice_is_false_from(&v, ndx)
    }

    fn set_true_from(&mut self, ndx: usize) {
        let mut v: Vec<u8> = u32_to_vec(*self);
        slice_set_true_from(&mut v, ndx);
        *self = u32_from_vec(&v);
    }

    fn is_true_from(&self, ndx: usize) -> bool {
        let v: Vec<u8> = u32_to_vec(*self);
        slice_is_true_from(&v, ndx)
    }

    fn new_all_false() -> Self {
        let mut v: Vec<u8> = Vec::new();
        v.push(0);
        v.push(0);
        v.push(0);
        v.push(0);
        let r: u32 = u32_from_vec(&v);
        proof {
            lemma_byte_extremes();
        }
        r
    }

    fn new_all_true() -> Self {
        let mut v: Vec<u8> = Vec::new();
        v.push(0xff);
        v.push(0xff);
        v.push(0xff);
        v.push(0xff);
        let r: u32 = u32_from_vec(&v);
        proof {
            lemma_byte_extremes();
        }
        r
    }

    fn contains(&self, prefix: usize, other: &Self) -> bool {
        let a: Vec<u8> = u32_to_vec(*self);
        let b: Vec<u8> = u32_to_vec(*other);
        slice_contains(&a, prefix, &b)
    }
}

/// A 64-bit word as its 8 big-endian bytes.
pub open spec fn u64_bytes(w: u64) -> Seq<u8> {
    seq![
    (w >> 56u64) as u8,
    (w >> 48u64) as u8,
    (w >> 40u64) as u8,
    (w >> 32u64) as u8,
    (w >> 24u64) as u8,
    (w >> 16u64) as u8,
    (w >> 8u64) as u8,
    w as u8,
    ]
}

fn u64_to_vec(w: u64) -> (r: Vec<u8>)
    ensures
        r@ == u64_bytes(w),
{
    let mut r: Vec<u8> = Vec::new();
    r.push((w >> 56u64) as u8);
    r.push((w >> 48u64) as u8);
    r.push((w >> 40u64) as u8);
    r.push((w >> 32u64) as u8);
    r.push((w >> 24u64) as u8);
    r.push((w >> 16u64) as u8);
    r.push((w >> 8u64) as u8);
    r.push(w as u8);
    proof {
        assert(r@ =~= u64_bytes(w));
    }
    r
}

fn u64_from_vec(v: &Vec<u8>) -> (r: u64)
    requires
        v@.len() == 8,
    ensures
        u64_bytes(r) == v@,
{
    let b0: u8 = v[0];
    let b1: u8 = v[1];
    let b2: u8 = v[2];
    let b3: u8 = v[3];
    let b4: u8 = v[4];
    let b5: u8 = v[5];
    let b6: u8 = v[6];
    let b7: u8 = v[7];
    let r: u64 = ((b0 as u64) << 56u64) | ((b1 as u64) << 48u64) | ((b2 as u64) << 40u64) | ((b3 as u64) << 32u64) | ((b4 as u64) << 24u64) | ((b5 as u64) << 16u64) | ((b6 as u64) << 8u64) | (b7 as u64);
    proof {
        assert((r >> 56u64) as u8 == b0 && (r >> 48u64) as u8 == b1 && (r >> 40u64) as u8 == b2 && (r >> 32u64) as u8 == b3 && (r >> 24u64) as u8 == b4 && (r >> 16u64) as u8 == b5 && (r >> 8u64) as u8 == b6 && r as u8 == b7) by (bit_vector)
            requires
                r == ((b0 as u64) << 56u64) | ((b1 as u64) << 48u64) | ((b2 as u64) << 40u64) | ((b3 as u64) << 32u64) | ((b4 as u64) << 24u64) | ((b5 as u64) << 16u64) | ((b6 as u64) << 8u64) | (b7 as u64),
        ;
        assert(u64_bytes(r) =~= v@);
    }
    r
}

impl FixedBitString for u64 {
    open spec fn bits(&self) -> Seq<bool> {
        bytes_bits(u64_bytes(*self))
    }

    open spec fn spec_len() -> nat {
        64
    }

    proof fn lemma_bits_len(&self) {
    }

    fn len() -> usize {
        64
    }

    fn inc(&mut self, prefix: usize) -> bool {
        let mut v: Vec<u8> = u64_to_vec(*self);
        let overflow: bool = slice_inc(&mut v, prefix);
        *self = u64_from_vec(&v);
        overflow
    }

    fn iter(&self, prefix: usize) -> Iter<u64> {
        Iter::new(*self, prefix)
    }

    fn get(&self, ndx: usize) -> bool {
        let v: Vec<u8> = u64_to_vec(*self);
        slice_get(&v, ndx)
    }

    fn set(&mut self, ndx: usize, bit: bool) {
        let mut v: Vec<u8> = u64_to_vec(*self);
        slice_set(&mut v, ndx, bit);
        *self = u64_from_vec(&v);
    }

    fn flip(&mut self, ndx: usize) {
        let mut v: Vec<u8> = u64_to_vec(*self);
        slice_flip(&mut v, ndx);
        *self = u64_from_vec(&v);
    }

    fn shared_prefix_len(&self, other: &Self) -> usize {
        let a: Vec<u8> = u64_to_vec(*self);
        let b: Vec<u8> = u64_to_vec(*other);
        slice_shared_prefix_len(&a, &b, 64)
    }

    fn set_false_from(&mut self, ndx: usize) {
        let mut v: Vec<u8> = u64_to_vec(*self);
        slice_set_false_from(&mut v, ndx);
        *self = u64_from_vec(&v);
    }

    fn is_false_from(&self, ndx: usize) -> bool {
        let v: Vec<u8> = u64_to_vec(*self);
        slice_is_false_from(&v, ndx)
    }

    fn set_true_from(&mut self, ndx: usize) {
        let mut v: Vec<u8> = u64_to_vec(*self);
        slice_set_true_from(&mut v, ndx);
        *self = u64_from_vec(&v);
    }

    fn is_true_from(&self, ndx: usize) -> bool {
        let v: Vec<u8> = u64_to_vec(*self);
        slice_is_true_from(&v, ndx)
    }

    fn new_all_false() -> Self {
        let mut v: Vec<u8> = Vec::new();
        v.push(0);
        v.push(0);
        v.push(0);
        v.push(0);
        v.push(0);
        v.push(0);
        v.push(0);
        v.push(0);
        let r: u64 = u64_from_vec(&v);
        proof {
            lemma_byte_extremes();
        }
        r
    }

    fn new_all_true() -> Self {
        let mut v: Vec<u8> = Vec::new();
        v.push(0xff);
        v.push(0xff);
        v.push(0xff);
        v.push(0xff);
        v.push(0xff);
        v.push(0xff);
        v.push(0xff);
        v.push(0xff);
        let r: u64 = u64_from_vec(&v);
        proof {
            lemma_byte_extremes();
        }
        r
    }

    fn contains(&self, prefix: usize, other: &Self) -> bool {
        let a: Vec<u8> = u64_to_vec(*self);
        let b: Vec<u8> = u64_to_vec(*other);
        slice_contains(&a, prefix, &b)
    }
}

/// A 128-bit word as its 16 big-endian bytes.
pub open spec fn u128_bytes(w: u128) -> Seq<u8> {
    seq![
    (w >> 120u128) as u8,
    (w >> 112u128) as u8,
    (w >> 104u128) as u8,
    (w >> 96u128) as u8,
    (w >> 88u128) as u8,
    (w >> 80u128) as u8,
    (w >> 72u128) as u8,
    (w >> 64u128) as u8,
    (w >> 56u128) as u8,
    (w >> 48u128) as u8,
    (w >> 40u128) as u8,
    (w >> 32u128) as u8,
    (w >> 24u128) as u8,
    (w >> 16u128) as u8,
    (w >> 8u128) as u8,
    w as u8,
    ]
}

fn u128_to_vec(w: u128) -> (r: Vec<u8>)
    ensures
        r@ == u128_bytes(w),
{
    let mut r: Vec<u8> = Vec::new();
    r.push((w >> 120u128) as u8);
    r.push((w >> 112u128) as u8);
    r.push((w >> 104u128) as u8);
    r.push((w >> 96u128) as u8);
    r.push((w >> 88u128) as u8);
    r.push((w >> 80u128) as u8);
    r.push((w >> 72u128) as u8);
    r.push((w >> 64u128) as u8);
    r.push((w >> 56u128) as u8);
    r.push((w >> 48u128) as u8);
    r.push((w >> 40u128) as u8);
    r.push((w >> 32u128) as u8);
    r.push((w >> 24u128) as u8);
    r.push((w >> 16u128) as u8);
    r.push((w >> 8u128) as u8);
    r.push(w as u8);
    proof {
        assert(r@ =~= u128_bytes(w));
    }
    r
}

fn u128_from_vec(v: &Vec<u8>) -> (r: u128)
    requires
        v@.len() == 16,
    ensures
        u128_bytes(r) == v@,
{
    let b0: u8 = v[0];
    let b1: u8 = v[1];
    let b2: u8 = v[2];
    let b3: u8 = v[3];
    let b4: u8 = v[4];
    let b5: u8 = v[5];
    let b6: u8 = v[6];
    let b7: u8 = v[7];
    let b8: u8 = v[8];
    let b9: u8 = v[9];
    let b10: u8 = v[10];
    let b11: u8 = v[11];
    let b12: u8 = v[12];
    let b13: u8 = v[13];
    let b14: u8 = v[14];
    let b15: u8 = v[15];
    let r: u128 = ((b0 as u128) << 120u128) | ((b1 as u128) << 112u128) | ((b2 as u128) << 104u128) | ((b3 as u128) << 96u128) | ((b4 as u128) << 88u128) | ((b5 as u128) << 80u128) | ((b6 as u128) << 72u128) | ((b7 as u128) << 64u128) | ((b8 as u128) << 56u128) | ((b9 as u128) << 48u128) | ((b10 as u128) << 40u128) | ((b11 as u128) << 32u128) | ((b12 as u128) << 24u128) | ((b13 as u128) << 16u128) | ((b14 as u128) << 8u128) | (b15 as u128);
    proof {
        assert((r >> 120u128) as u8 == b0 && (r >> 112u128) as u8 == b1 && (r >> 104u128) as u8 == b2 && (r >> 96u128) as u8 == b3 && (r >> 88u128) as u8 == b4 && (r >> 80u128) as u8 == b5 && (r >> 72u128) as u8 == b6 && (r >> 64u128) as u8 == b7 && (r >> 56u128) as u8 == b8 && (r >> 48u128) as u8 == b9 && (r >> 40u128) as u8 == b10 && (r >> 32u128) as u8 == b11 && (r >> 24u128) as u8 == b12 && (r >> 16u128) as u8 == b13 && (r >> 8u128) as u8 == b14 && r as u8 == b15) by (bit_vector)
            requires
                r == ((b0 as u128) << 120u128) | ((b1 as u128) << 112u128) | ((b2 as u128) << 104u128) | ((b3 as u128) << 96u128) | ((b4 as u128) << 88u128) | ((b5 as u128) << 80u128) | ((b6 as u128) << 72u128) | ((b7 as u128) << 64u128) | ((b8 as u128) << 56u128) | ((b9 as u128) << 48u128) | ((b10 as u128) << 40u128) | ((b11 as u128) << 32u128) | ((b12 as u128) << 24u128) | ((b13 as u128) << 16u128) | ((b14 as u128) << 8u128) | (b15 as u128),
        ;
        assert(u128_bytes(r) =~= v@);
    }
    r
}

impl FixedBitString for u128 {
    open spec fn bits(&self) -> Seq<bool> {
        bytes_bits(u128_bytes(*self))
    }

    open spec fn spec_len() -> nat {
        128
    }

    proof fn lemma_bits_len(&self) {
    }

    fn len() -> usize {
        128
    }

    fn inc(&mut self, prefix: usize) -> bool {
        let mut v: Vec<u8> = u128_to_vec(*self);
        let overflow: bool = slice_inc(&mut v, prefix);
        *self = u128_from_vec(&v);
        overflow
    }

    fn iter(&self, prefix: usize) -> Iter<u128> {
        Iter::new(*self, prefix)
    }

    fn get(&self, ndx: usize) -> bool {
        let v: Vec<u8> = u128_to_vec(*self);
        slice_get(&v, ndx)
    }

    fn set(&mut self, ndx: usize, bit: bool) {
        let mut v: Vec<u8> = u128_to_vec(*self);
        slice_set(&mut v, ndx, bit);
        *self = u128_from_vec(&v);
    }

    fn flip(&mut self, ndx: usize) {
        let mut v: Vec<u8> = u128_to_vec(*self);
        slice_flip(&mut v, ndx);
        *self = u128_from_vec(&v);
    }

    fn shared_prefix_len(&self, other: &Self) -> usize {
        let a: Vec<u8> = u128_to_vec(*self);
        let b: Vec<u8> = u128_to_vec(*other);
        slice_shared_prefix_len(&a, &b, 128)
    }

    fn set_false_from(&mut self, ndx: usize) {
        let mut v: Vec<u8> = u128_to_vec(*self);
        slice_set_false_from(&mut v, ndx);
        *self = u128_from_vec(&v);
    }

    fn is_false_from(&self, ndx: usize) -> bool {
        let v: Vec<u8> = u128_to_vec(*self);
        slice_is_false_from(&v, ndx)
    }

    fn set_true_from(&mut self, ndx: usize) {
        let mut v: Vec<u8> = u128_to_vec(*self);
        slice_set_true_from(&mut v, ndx);
        *self = u128_from_vec(&v);
    }

    fn is_true_from(&self, ndx: usize) -> bool {
        let v: Vec<u8> = u128_to_vec(*self);
        slice_is_true_from(&v, ndx)
    }

    fn new_all_false() -> Self {
        let mut v: Vec<u8> = Vec::new();
        v.push(0);
        v.push(0);
        v.push(0);
        v.push(0);
        v.push(0);
        v.push(0);
        v.push(0);
        v.push(0);
        v.push(0);
        v.push(0);
        v.push(0);
        v.push(0);
        v.push(0);
        v.push(0);
        v.push(0);
        v.push(0);
        let r: u128 = u128_from_vec(&v);
        proof {
            lemma_byte_extremes();
        }
        r
    }

    fn new_all_true() -> Self {
        let mut v: Vec<u8> = Vec::new();
        v.push(0xff);
        v.push(0xff);
        v.push(0xff);
        v.push(0xff);
        v.push(0xff);
        v.push(0xff);
        v.push(0xff);
        v.push(0xff);
        v.push(0xff);
        v.push(0xff);
        v.push(0xff);
        v.push(0xff);
        v.push(0xff);
        v.push(0xff);
        v.push(0xff);
        v.push(0xff);
        let r: u128 = u128_from_vec(&v);
        proof {
            lemma_byte_extremes();
        }
        r
    }

    fn contains(&self, prefix: usize, other: &Self) -> bool {
        let a: Vec<u8> = u128_to_vec(*self);
        let b: Vec<u8> = u128_to_vec(*other);
        slice_contains(&a, prefix, &b)
    }
}

/// Reading `l` words of `e` bits each as `l * b` bytes keeps the total
/// bit count.
proof fn lemma_len_scale(l: nat, e: nat, b: nat)
    requires
        e == 8 * b,
    ensures
        l * e == (l * b) * 8,
{
    assert(l * (8 * b) == (l * b) * 8) by (nonlinear_arith);
}


/// A sequence of 16-bit words as its big-endian bytes.
pub open spec fn u16s_bytes(s: Seq<u16>) -> Seq<u8> {
    Seq::new(s.len() * 2, |i: int| u16_bytes(s[i / 2])[i % 2])
}

fn u16s_to_vec(s: &Vec<u16>) -> (r: Vec<u8>)
    ensures
        r@ == u16s_bytes(s@),
{
    let mut r: Vec<u8> = Vec::new();
    let mut i: usize = 0;
    while i < s.len()
        invariant
            i <= s@.len(),
            r@.len() == i * 2,
            forall|k: int| 0 <= k < i * 2 ==> r@[k] == u16s_bytes(s@)[k],
        decreases s@.len() - i,
    {
        let w: u16 = s[i];
        let wb: Vec<u8> = u16_to_vec(w);
        let mut j: usize = 0;
        while j < 2
            invariant
                j <= 2,
                0 <= i < s@.len(),
                w == s@[i as int],
                wb@ == u16_bytes(w),
                r@.len() == i * 2 + j,
                forall|k: int| 0 <= k < i * 2 ==> r@[k] == u16s_bytes(s@)[k],
                forall|k: int|
                    i * 2 <= k < i * 2 + j ==> r@[k] == u16_bytes(s@[i as int])[k - i * 2],
            decreases 2 - j,
        {
            r.push(wb[j]);
            j = j + 1;
        }
        proof {
            assert forall|k: int| 0 <= k < (i + 1) * 2 implies r@[k] == u16s_bytes(s@)[k] by {
                if i * 2 <= k {
                    vstd::arithmetic::div_mod::lemma_fundamental_div_mod_converse(
                        k,
                        2,
                        i as int,
                        k - i * 2,
                    );
                    assert(u16s_bytes(s@)[k] == u16_bytes(s@[k / 2])[k % 2]);
                }
            }
        }
        i = i + 1;
    }
    proof {
        assert(r@ =~= u16s_bytes(s@));
    }
    r
}

fn u16s_from_vec(v: &Vec<u8>, count: usize) -> (r: Vec<u16>)
    requires
        v@.len() == count * 2,
    ensures
        r@.len() == count,
        u16s_bytes(r@) == v@,
{
    let total: usize = v.len();
    let mut r: Vec<u16> = Vec::new();
    let mut i: usize = 0;
    while i < count
        invariant
            i <= count,
            v@.len() == count * 2,
            total == count * 2,
            r@.len() == i,
            forall|j: int|
                0 <= j < i ==> u16_bytes(r@[j]) == v@.subrange(j * 2, j * 2 + 2),
        decreases count - i,
    {
        let mut piece: Vec<u8> = Vec::new();
        let mut j: usize = 0;
        while j < 2
            invariant
                j <= 2,
                0 <= i < count,
                v@.len() == count * 2,
                total == count * 2,
                piece@.len() == j,
                forall|k: int| 0 <= k < j ==> piece@[k] == v@[i * 2 + k],
            decreases 2 - j,
        {
            piece.push(v[i * 2 + j]);
            j = j + 1;
        }
        let w: u16 = u16_from_vec(&piece);
        proof {
            assert(u16_bytes(w) =~= v@.subrange(i as int * 2, i as int * 2 + 2));
        }
        r.push(w);
        i = i + 1;
    }
    proof {
        assert(u16s_bytes(r@) =~= v@) by {
            assert forall|k: int| 0 <= k < count * 2 implies u16s_bytes(r@)[k] == v@[k] by {
                let j = k / 2;
                vstd::arithmetic::div_mod::lemma_fundamental_div_mod(k, 2);
                vstd::arithmetic::div_mod::lemma_mod_bound(k, 2);
                assert(u16_bytes(r@[j]) == v@.subrange(j * 2, j * 2 + 2));
                assert(v@.subrange(j * 2, j * 2 + 2)[k % 2] == v@[k]);
            }
        }
    }
    r
}

impl BigEndianBitString for u16 {
    open spec fn element_bits() -> nat {
        16
    }

    open spec fn element_seq(&self) -> Seq<bool> {
        bytes_bits(u16_bytes(*self))
    }

    open spec fn elements_bits(s: Seq<u16>) -> Seq<bool> {
        bytes_bits(u16s_bytes(s))
    }

    proof fn lemma_element_seq_len(&self) {
    }

    proof fn lemma_elements_bits(s: Seq<u16>) {
        lemma_len_scale(s.len(), 16, 2);
        assert forall|i: int|
            0 <= i < s.len() * 16 implies Self::elements_bits(s)[i] == s[i / (
        Self::element_bits() as int)].element_seq()[i % (Self::element_bits() as int)] by {
            crate::bits::lemma_index_split(i, 2);
            assert(Self::elements_bits(s)[i] == byte_bit(u16s_bytes(s)[i / 8], i % 8));
            assert(u16s_bytes(s)[i / 8] == u16_bytes(s[(i / 8) / 2])[(i / 8) % 2]);
            assert((i / 8) / 2 == i / 16);
            assert(s[i / 16].element_seq()[i % 16] == byte_bit(
                u16_bytes(s[i / 16])[(i % 16) / 8],
                (i % 16) % 8,
            ));
        }
    }

    fn mask(ndx: usize) -> (r: u16)
        ensures
            forall|i: int|
                0 <= i < 16 ==> (r.element_seq()[i] <==> i == (ndx as int) % 16),
    {
        let nin: usize = ndx % 16;
        let mut v: Vec<u8> = Vec::new();
        let mut j: usize = 0;
        while j < 2
            invariant
                j <= 2,
                nin == ndx % 16,
                v@.len() == j,
                forall|t: int| 0 <= t < j && t != nin / 8 ==> v@[t] == 0,
                nin / 8 < j ==> forall|bi: int|
                    0 <= bi < 8 ==> #[trigger] byte_bit(v@[nin as int / 8], bi) == (bi
                        == nin as int % 8),
            decreases 2 - j,
        {
            if j == nin / 8 {
                v.push(mask(nin));
            } else {
                v.push(0);
            }
            j = j + 1;
        }
        let r: u16 = u16_from_vec(&v);
        proof {
            lemma_byte_extremes();
            assert(nin as int == 8 * (nin as int / 8) + nin as int % 8);
            assert forall|i: int| 0 <= i < 16 implies (r.element_seq()[i] <==> i == (
            ndx as int) % 16) by {
                assert(i == 8 * (i / 8) + i % 8);
                assert(r.element_seq()[i] == byte_bit(u16_bytes(r)[i / 8], i % 8));
                assert(u16_bytes(r)[i / 8] == v@[i / 8]);
                if i / 8 != nin / 8 {
                    assert(v@[i / 8] == 0);
                    assert(!byte_bit(0u8, i % 8));
                }
            }
        }
        r
    }

    fn inc(slice: &mut Vec<u16>, prefix: usize) -> (overflow: bool) {
        proof {
            lemma_len_scale(old(slice)@.len(), 16, 2);
        }
        let n: usize = slice.len();
        let mut bytes: Vec<u8> = u16s_to_vec(slice);
        let overflow: bool = slice_inc(&mut bytes, prefix);
        *slice = u16s_from_vec(&bytes, n);
        overflow
    }

    fn get(slice: &Vec<u16>, ndx: usize) -> (r: bool) {
        proof {
            lemma_len_scale(slice@.len(), 16, 2);
        }
        let bytes: Vec<u8> = u16s_to_vec(slice);
        slice_get(&bytes, ndx)
    }

    fn set(slice: &mut Vec<u16>, ndx: usize, bit: bool) {
        proof {
            lemma_len_scale(old(slice)@.len(), 16, 2);
        }
        let n: usize = slice.len();
        let mut bytes: Vec<u8> = u16s_to_vec(slice);
        slice_set(&mut bytes, ndx, bit);
        *slice = u16s_from_vec(&bytes, n);
    }

    fn flip(slice: &mut Vec<u16>, ndx: usize) {
        proof {
            lemma_len_scale(old(slice)@.len(), 16, 2);
        }
        let n: usize = slice.len();
        let mut bytes: Vec<u8> = u16s_to_vec(slice);
        slice_flip(&mut bytes, ndx);
        *slice = u16s_from_vec(&bytes, n);
    }

    fn shared_prefix_len(slice: &Vec<u16>, other: &Vec<u16>, max_len: usize) -> (r: usize) {
        proof {
            lemma_len_scale(slice@.len(), 16, 2);
        }
        let a: Vec<u8> = u16s_to_vec(slice);
        let b: Vec<u8> = u16s_to_vec(other);
        slice_shared_prefix_len(&a, &b, max_len)
    }

    fn set_false_from(slice: &mut Vec<u16>, ndx: usize) {
        proof {
            lemma_len_scale(old(slice)@.len(), 16, 2);
        }
        let n: usize = slice.len();
        let mut bytes: Vec<u8> = u16s_to_vec(slice);
        slice_set_false_from(&mut bytes, ndx);
        *slice = u16s_from_vec(&bytes, n);
    }

    fn is_false_from(slice: &Vec<u16>, ndx: usize) -> (r: bool) {
        proof {
            lemma_len_scale(slice@.len(), 16, 2);
        }
        let bytes: Vec<u8> = u16s_to_vec(slice);
        slice_is_false_from(&bytes, ndx)
    }

    fn set_true_from(slice: &mut Vec<u16>, ndx: usize) {
        proof {
            lemma_len_scale(old(slice)@.len(), 16, 2);
        }
        let n: usize = slice.len();
        let mut bytes: Vec<u8> = u16s_to_vec(slice);
        slice_set_true_from(&mut bytes, ndx);
        *slice = u16s_from_vec(&bytes, n);
    }

    fn is_true_from(slice: &Vec<u16>, ndx: usize) -> (r: bool) {
        proof {
            lemma_len_scale(slice@.len(), 16, 2);
        }
        let bytes: Vec<u8> = u16s_to_vec(slice);
        slice_is_true_from(&bytes, ndx)
    }

    fn contains(slice: &Vec<u16>, prefix: usize, other: &Vec<u16>) -> (r: bool) {
        proof {
            lemma_len_scale(slice@.len(), 16, 2);
        }
        let a: Vec<u8> = u16s_to_vec(slice);
        let b: Vec<u8> = u16s_to_vec(other);
        slice_contains(&a, prefix, &b)
    }
}

/// A sequence of 32-bit words as its big-endian bytes.
pub open spec fn u32s_bytes(s: Seq<u32>) -> Seq<u8> {
    Seq::new(s.len() * 4, |i: int| u32_bytes(s[i / 4])[i % 4])
}

fn u32s_to_vec(s: &Vec<u32>) -> (r: Vec<u8>)
    ensures
        r@ == u32s_bytes(s@),
{
    let mut r: Vec<u8> = Vec::new();
    let mut i: usize = 0;
    while i < s.len()
        invariant
            i <= s@.len(),
            r@.len() == i * 4,
            forall|k: int| 0 <= k < i * 4 ==> r@[k] == u32s_bytes(s@)[k],
        decreases s@.len() - i,
    {
        let w: u32 = s[i];
        let wb: Vec<u8> = u32_to_vec(w);
        let mut j: usize = 0;
        while j < 4
            invariant
                j <= 4,
                0 <= i < s@.len(),
                w == s@[i as int],
                wb@ == u32_bytes(w),
                r@.len() == i * 4 + j,
                forall|k: int| 0 <= k < i * 4 ==> r@[k] == u32s_bytes(s@)[k],
                forall|k: int|
                    i * 4 <= k < i * 4 + j ==> r@[k] == u32_bytes(s@[i as int])[k - i * 4],
            decreases 4 - j,
        {
            r.push(wb[j]);
            j = j + 1;
        }
        proof {
            assert forall|k: int| 0 <= k < (i + 1) * 4 implies r@[k] == u32s_bytes(s@)[k] by {
                if i * 4 <= k {
                    vstd::arithmetic::div_mod::lemma_fundamental_div_mod_converse(
                        k,
                        4,
                        i as int,
                        k - i * 4,
                    );
                    assert(u32s_bytes(s@)[k] == u32_bytes(s@[k / 4])[k % 4]);
                }
            }
        }
        i = i + 1;
    }
    proof {
        assert(r@ =~= u32s_bytes(s@));
    }
    r
}

fn u32s_from_vec(v: &Vec<u8>, count: usize) -> (r: Vec<u32>)
    requires
        v@.len() == count * 4,
    ensures
        r@.len() == count,
        u32s_bytes(r@) == v@,
{
    let total: usize = v.len();
    let mut r: Vec<u32> = Vec::new();
    let mut i: usize = 0;
    while i < count
        invariant
            i <= count,
            v@.len() == count * 4,
            total == count * 4,
            r@.len() == i,
            forall|j: int|
                0 <= j < i ==> u32_bytes(r@[j]) == v@.subrange(j * 4, j * 4 + 4),
        decreases count - i,
    {
        let mut piece: Vec<u8> = Vec::new();
        let mut j: usize = 0;
        while j < 4
            invariant
                j <= 4,
                0 <= i < count,
                v@.len() == count * 4,
                total == count * 4,
                piece@.len() == j,
                forall|k: int| 0 <= k < j ==> piece@[k] == v@[i * 4 + k],
            decreases 4 - j,
        {
            piece.push(v[i * 4 + j]);
            j = j + 1;
        }
        let w: u32 = u32_from_vec(&piece);
        proof {
            assert(u32_bytes(w) =~= v@.subrange(i as int * 4, i as int * 4 + 4));
        }
        r.push(w);
        i = i + 1;
    }
    proof {
        assert(u32s_bytes(r@) =~= v@) by {
            assert forall|k: int| 0 <= k < count * 4 implies u32s_bytes(r@)[k] == v@[k] by {
                let j = k / 4;
                vstd::arithmetic::div_mod::lemma_fundamental_div_mod(k, 4);
                vstd::arithmetic::div_mod::lemma_mod_bound(k, 4);
                assert(u32_bytes(r@[j]) == v@.subrange(j * 4, j * 4 + 4));
                assert(v@.subrange(j * 4, j * 4 + 4)[k % 4] == v@[k]);
            }
        }
    }
    r
}

impl BigEndianBitString for u32 {
    open spec fn element_bits() -> nat {
        32
    }

    open spec fn element_seq(&self) -> Seq<bool> {
        bytes_bits(u32_bytes(*self))
    }

    open spec fn elements_bits(s: Seq<u32>) -> Seq<bool> {
        bytes_bits(u32s_bytes(s))
    }

    proof fn lemma_element_seq_len(&self) {
    }

    proof fn lemma_elements_bits(s: Seq<u32>) {
        lemma_len_scale(s.len(), 32, 4);
        assert forall|i: int|
            0 <= i < s.len() * 32 implies Self::elements_bits(s)[i] == s[i / (
        Self::element_bits() as int)].element_seq()[i % (Self::element_bits() as int)] by {
            crate::bits::lemma_index_split(i, 4);
            assert(Self::elements_bits(s)[i] == byte_bit(u32s_bytes(s)[i / 8], i % 8));
            assert(u32s_bytes(s)[i / 8] == u32_bytes(s[(i / 8) / 4])[(i / 8) % 4]);
            assert((i / 8) / 4 == i / 32);
            assert(s[i / 32].element_seq()[i % 32] == byte_bit(
                u32_bytes(s[i / 32])[(i % 32) / 8],
                (i % 32) % 8,
            ));
        }
    }

    fn mask(ndx: usize) -> (r: u32)
        ensures
            forall|i: int|
                0 <= i < 32 ==> (r.element_seq()[i] <==> i == (ndx as int) % 32),
    {
        let nin: usize = ndx % 32;
        let mut v: Vec<u8> = Vec::new();
        let mut j: usize = 0;
        while j < 4
            invariant
                j <= 4,
                nin == ndx % 32,
                v@.len() == j,
                forall|t: int| 0 <= t < j && t != nin / 8 ==> v@[t] == 0,
                nin / 8 < j ==> forall|bi: int|
                    0 <= bi < 8 ==> #[trigger] byte_bit(v@[nin as int / 8], bi) == (bi
                        == nin as int % 8),
            decreases 4 - j,
        {
            if j == nin / 8 {
                v.push(mask(nin));
            } else {
                v.push(0);
            }
            j = j + 1;
        }
        let r: u32 = u32_from_vec(&v);
        proof {
            lemma_byte_extremes();
            assert(nin as int == 8 * (nin as int / 8) + nin as int % 8);
            assert forall|i: int| 0 <= i < 32 implies (r.element_seq()[i] <==> i == (
            ndx as int) % 32) by {
                assert(i == 8 * (i / 8) + i % 8);
                assert(r.element_seq()[i] == byte_bit(u32_bytes(r)[i / 8], i % 8));
                assert(u32_bytes(r)[i / 8] == v@[i / 8]);
                if i / 8 != nin / 8 {
                    assert(v@[i / 8] == 0);
                    assert(!byte_bit(0u8, i % 8));
                }
            }
        }
        r
    }

    fn inc(slice: &mut Vec<u32>, prefix: usize) -> (overflow: bool) {
        proof {
            lemma_len_scale(old(slice)@.len(), 32, 4);
        }
        let n: usize = slice.len();
        let mut bytes: Vec<u8> = u32s_to_vec(slice);
        let overflow: bool = slice_inc(&mut bytes, prefix);
        *slice = u32s_from_vec(&bytes, n);
        overflow
    }

    fn get(slice: &Vec<u32>, ndx: usize) -> (r: bool) {
        proof {
            lemma_len_scale(slice@.len(), 32, 4);
        }
        let bytes: Vec<u8> = u32s_to_vec(slice);
        slice_get(&bytes, ndx)
    }

    fn set(slice: &mut Vec<u32>, ndx: usize, bit: bool) {
        proof {
            lemma_len_scale(old(slice)@.len(), 32, 4);
        }
        let n: usize = slice.len();
        let mut bytes: Vec<u8> = u32s_to_vec(slice);
        slice_set(&mut bytes, ndx, bit);
        *slice = u32s_from_vec(&bytes, n);
    }

    fn flip(slice: &mut Vec<u32>, ndx: usize) {
        proof {
            lemma_len_scale(old(slice)@.len(), 32, 4);
        }
        let n: usize = slice.len();
        let mut bytes: Vec<u8> = u32s_to_vec(slice);
        slice_flip(&mut bytes, ndx);
        *slice = u32s_from_vec(&bytes, n);
    }

    fn shared_prefix_len(slice: &Vec<u32>, other: &Vec<u32>, max_len: usize) -> (r: usize) {
        proof {
            lemma_len_scale(slice@.len(), 32, 4);
        }
        let a: Vec<u8> = u32s_to_vec(slice);
        let b: Vec<u8> = u32s_to_vec(other);
        slice_shared_prefix_len(&a, &b, max_len)
    }

    fn set_false_from(slice: &mut Vec<u32>, ndx: usize) {
        proof {
            lemma_len_scale(old(slice)@.len(), 32, 4);
        }
        let n: usize = slice.len();
        let mut bytes: Vec<u8> = u32s_to_vec(slice);
        slice_set_false_from(&mut bytes, ndx);
        *slice = u32s_from_vec(&bytes, n);
    }

    fn is_false_from(slice: &Vec<u32>, ndx: usize) -> (r: bool) {
        proof {
            lemma_len_scale(slice@.len(), 32, 4);
        }
        let bytes: Vec<u8> = u32s_to_vec(slice);
        slice_is_false_from(&bytes, ndx)
    }

    fn set_true_from(slice: &mut Vec<u32>, ndx: usize) {
        proof {
            lemma_len_scale(old(slice)@.len(), 32, 4);
        }
        let n: usize = slice.len();
        let mut bytes: Vec<u8> = u32s_to_vec(slice);
        slice_set_true_from(&mut bytes, ndx);
        *slice = u32s_from_vec(&bytes, n);
    }

    fn is_true_from(slice: &Vec<u32>, ndx: usize) -> (r: bool) {
        proof {
            lemma_len_scale(slice@.len(), 32, 4);
        }
        let bytes: Vec<u8> = u32s_to_vec(slice);
        slice_is_true_from(&bytes, ndx)
    }

    fn contains(slice: &Vec<u32>, prefix: usize, other: &Vec<u32>) -> (r: bool) {
        proof {
            lemma_len_scale(slice@.len(), 32, 4);
        }
        let a: Vec<u8> = u32s_to_vec(slice);
        let b: Vec<u8> = u32s_to_vec(other);
        slice_contains(&a, prefix, &b)
    }
}

/// A sequence of 64-bit words as its big-endian bytes.
pub open spec fn u64s_bytes(s: Seq<u64>) -> Seq<u8> {
    Seq::new(s.len() * 8, |i: int| u64_bytes(s[i / 8])[i % 8])
}

fn u64s_to_vec(s: &Vec<u64>) -> (r: Vec<u8>)
    ensures
        r@ == u64s_bytes(s@),
{
    let mut r: Vec<u8> = Vec::new();
    let mut i: usize = 0;
    while i < s.len()
        invariant
            i <= s@.len(),
            r@.len() == i * 8,
            forall|k: int| 0 <= k < i * 8 ==> r@[k] == u64s_bytes(s@)[k],
        decreases s@.len() - i,
    {
        let w: u64 = s[i];
        let wb: Vec<u8> = u64_to_vec(w);
        let mut j: usize = 0;
        while j < 8
            invariant
                j <= 8,
                0 <= i < s@.len(),
                w == s@[i as int],
                wb@ == u64_bytes(w),
                r@.len() == i * 8 + j,
                forall|k: int| 0 <= k < i * 8 ==> r@[k] == u64s_bytes(s@)[k],
                forall|k: int|
                    i * 8 <= k < i * 8 + j ==> r@[k] == u64_bytes(s@[i as int])[k - i * 8],
            decreases 8 - j,
        {
            r.push(wb[j]);
            j = j + 1;
        }
        proof {
            assert forall|k: int| 0 <= k < (i + 1) * 8 implies r@[k] == u64s_bytes(s@)[k] by {
                if i * 8 <= k {
                    vstd::arithmetic::div_mod::lemma_fundamental_div_mod_converse(
                        k,
                        8,
                        i as int,
                        k - i * 8,
                    );
                    assert(u64s_bytes(s@)[k] == u64_bytes(s@[k / 8])[k % 8]);
                }
            }
        }
        i = i + 1;
    }
    proof {
        assert(r@ =~= u64s_bytes(s@));
    }
    r
}

fn u64s_from_vec(v: &Vec<u8>, count: usize) -> (r: Vec<u64>)
    requires
        v@.len() == count * 8,
    ensures
        r@.len() == count,
        u64s_bytes(r@) == v@,
{
    let total: usize = v.len();
    let mut r: Vec<u64> = Vec::new();
    let mut i: usize = 0;
    while i < count
        invariant
            i <= count,
            v@.len() == count * 8,
            total == count * 8,
            r@.len() == i,
            forall|j: int|
                0 <= j < i ==> u64_bytes(r@[j]) == v@.subrange(j * 8, j * 8 + 8),
        decreases count - i,
    {
        let mut piece: Vec<u8> = Vec::new();
        let mut j: usize = 0;
        while j < 8
            invariant
                j <= 8,
                0 <= i < count,
                v@.len() == count * 8,
                total == count * 8,
                piece@.len() == j,
                forall|k: int| 0 <= k < j ==> piece@[k] == v@[i * 8 + k],
            decreases 8 - j,
        {
            piece.push(v[i * 8 + j]);
            j = j + 1;
        }
        let w: u64 = u64_from_vec(&piece);
        proof {
            assert(u64_bytes(w) =~= v@.subrange(i as int * 8, i as int * 8 + 8));
        }
        r.push(w);
        i = i + 1;
    }
    proof {
        assert(u64s_bytes(r@) =~= v@) by {
            assert forall|k: int| 0 <= k < count * 8 implies u64s_bytes(r@)[k] == v@[k] by {
                let j = k / 8;
                vstd::arithmetic::div_mod::lemma_fundamental_div_mod(k, 8);
                vstd::arithmetic::div_mod::lemma_mod_bound(k, 8);
                assert(u64_bytes(r@[j]) == v@.subrange(j * 8, j * 8 + 8));
                assert(v@.subrange(j * 8, j * 8 + 8)[k % 8] == v@[k]);
            }
        }
    }
    r
}

impl BigEndianBitString for u64 {
    open spec fn element_bits() -> nat {
        64
    }

    open spec fn element_seq(&self) -> Seq<bool> {
        bytes_bits(u64_bytes(*self))
    }

    open spec fn elements_bits(s: Seq<u64>) -> Seq<bool> {
        bytes_bits(u64s_bytes(s))
    }

    proof fn lemma_element_seq_len(&self) {
    }

    proof fn lemma_elements_bits(s: Seq<u64>) {
        lemma_len_scale(s.len(), 64, 8);
        assert forall|i: int|
            0 <= i < s.len() * 64 implies Self::elements_bits(s)[i] == s[i / (
        Self::element_bits() as int)].element_seq()[i % (Self::element_bits() as int)] by {
            crate::bits::lemma_index_split(i, 8);
            assert(Self::elements_bits(s)[i] == byte_bit(u64s_bytes(s)[i / 8], i % 8));
            assert(u64s_bytes(s)[i / 8] == u64_bytes(s[(i / 8) / 8])[(i / 8) % 8]);
            assert((i / 8) / 8 == i / 64);
            assert(s[i / 64].element_seq()[i % 64] == byte_bit(
                u64_bytes(s[i / 64])[(i % 64) / 8],
                (i % 64) % 8,
            ));
        }
    }

    fn mask(ndx: usize) -> (r: u64)
        ensures
            forall|i: int|
                0 <= i < 64 ==> (r.element_seq()[i] <==> i == (ndx as int) % 64),
    {
        let nin: usize = ndx % 64;
        let mut v: Vec<u8> = Vec::new();
        let mut j: usize = 0;
        while j < 8
            invariant
                j <= 8,
                nin == ndx % 64,
                v@.len() == j,
                forall|t: int| 0 <= t < j && t != nin / 8 ==> v@[t] == 0,
                nin / 8 < j ==> forall|bi: int|
                    0 <= bi < 8 ==> #[trigger] byte_bit(v@[nin as int / 8], bi) == (bi
                        == nin as int % 8),
            decreases 8 - j,
        {
            if j == nin / 8 {
                v.push(mask(nin));
            } else {
                v.push(0);
            }
            j = j + 1;
        }
        let r: u64 = u64_from_vec(&v);
        proof {
            lemma_byte_extremes();
            assert(nin as int == 8 * (nin as int / 8) + nin as int % 8);
            assert forall|i: int| 0 <= i < 64 implies (r.element_seq()[i] <==> i == (
            ndx as int) % 64) by {
                assert(i == 8 * (i / 8) + i % 8);
                assert(r.element_seq()[i] == byte_bit(u64_bytes(r)[i / 8], i % 8));
                assert(u64_bytes(r)[i / 8] == v@[i / 8]);
                if i / 8 != nin / 8 {
                    assert(v@[i / 8] == 0);
                    assert(!byte_bit(0u8, i % 8));
                }
            }
        }
        r
    }

    fn inc(slice: &mut Vec<u64>, prefix: usize) -> (overflow: bool) {
        proof {
            lemma_len_scale(old(slice)@.len(), 64, 8);
        }
        let n: usize = slice.len();
        let mut bytes: Vec<u8> = u64s_to_vec(slice);
        let overflow: bool = slice_inc(&mut bytes, prefix);
        *slice = u64s_from_vec(&bytes, n);
        overflow
    }

    fn get(slice: &Vec<u64>, ndx: usize) -> (r: bool) {
        proof {
            lemma_len_scale(slice@.len(), 64, 8);
        }
        let bytes: Vec<u8> = u64s_to_vec(slice);
        slice_get(&bytes, ndx)
    }

    fn set(slice: &mut Vec<u64>, ndx: usize, bit: bool) {
        proof {
            lemma_len_scale(old(slice)@.len(), 64, 8);
        }
        let n: usize = slice.len();
        let mut bytes: Vec<u8> = u64s_to_vec(slice);
        slice_set(&mut bytes, ndx, bit);
        *slice = u64s_from_vec(&bytes, n);
    }

    fn flip(slice: &mut Vec<u64>, ndx: usize) {
        proof {
            lemma_len_scale(old(slice)@.len(), 64, 8);
        }
        let n: usize = slice.len();
        let mut bytes: Vec<u8> = u64s_to_vec(slice);
        slice_flip(&mut bytes, ndx);
        *slice = u64s_from_vec(&bytes, n);
    }

    fn shared_prefix_len(slice: &Vec<u64>, other: &Vec<u64>, max_len: usize) -> (r: usize) {
        proof {
            lemma_len_scale(slice@.len(), 64, 8);
        }
        let a: Vec<u8> = u64s_to_vec(slice);
        let b: Vec<u8> = u64s_to_vec(other);
        slice_shared_prefix_len(&a, &b, max_len)
    }

    fn set_false_from(slice: &mut Vec<u64>, ndx: usize) {
        proof {
            lemma_len_scale(old(slice)@.len(), 64, 8);
        }
        let n: usize = slice.len();
        let mut bytes: Vec<u8> = u64s_to_vec(slice);
        slice_set_false_from(&mut bytes, ndx);
        *slice = u64s_from_vec(&bytes, n);
    }

    fn is_false_from(slice: &Vec<u64>, ndx: usize) -> (r: bool) {
        proof {
            lemma_len_scale(slice@.len(), 64, 8);
        }
        let bytes: Vec<u8> = u64s_to_vec(slice);
        slice_is_false_from(&bytes, ndx)
    }

    fn set_true_from(slice: &mut Vec<u64>, ndx: usize) {
        proof {
            lemma_len_scale(old(slice)@.len(), 64, 8);
        }
        let n: usize = slice.len();
        let mut bytes: Vec<u8> = u64s_to_vec(slice);
        slice_set_true_from(&mut bytes, ndx);
        *slice = u64s_from_vec(&bytes, n);
    }

    fn is_true_from(slice: &Vec<u64>, ndx: usize) -> (r: bool) {
        proof {
            lemma_len_scale(slice@.len(), 64, 8);
        }
        let bytes: Vec<u8> = u64s_to_vec(slice);
        slice_is_true_from(&bytes, ndx)
    }

    fn contains(slice: &Vec<u64>, prefix: usize, other: &Vec<u64>) -> (r: bool) {
        proof {
            lemma_len_scale(slice@.len(), 64, 8);
        }
        let a: Vec<u8> = u64s_to_vec(slice);
        let b: Vec<u8> = u64s_to_vec(other);
        slice_contains(&a, prefix, &b)
    }
}

/// A sequence of 128-bit words as its big-endian bytes.
pub open spec fn u128s_bytes(s: Seq<u128>) -> Seq<u8> {
    Seq::new(s.len() * 16, |i: int| u128_bytes(s[i / 16])[i % 16])
}

fn u128s_to_vec(s: &Vec<u128>) -> (r: Vec<u8>)
    ensures
        r@ == u128s_bytes(s@),
{
    let mut r: Vec<u8> = Vec::new();
    let mut i: usize = 0;
    while i < s.len()
        invariant
            i <= s@.len(),
            r@.len() == i * 16,
            forall|k: int| 0 <= k < i * 16 ==> r@[k] == u128s_bytes(s@)[k],
        decreases s@.len() - i,
    {
        let w: u128 = s[i];
        let wb: Vec<u8> = u128_to_vec(w);
        let mut j: usize = 0;
        while j < 16
            invariant
                j <= 16,
                0 <= i < s@.len(),
                w == s@[i as int],
                wb@ == u128_bytes(w),
                r@.len() == i * 16 + j,
                forall|k: int| 0 <= k < i * 16 ==> r@[k] == u128s_bytes(s@)[k],
                forall|k: int|
                    i * 16 <= k < i * 16 + j ==> r@[k] == u128_bytes(s@[i as int])[k - i * 16],
            decreases 16 - j,
        {
            r.push(wb[j]);
            j = j + 1;
        }
        proof {
            assert forall|k: int| 0 <= k < (i + 1) * 16 implies r@[k] == u128s_bytes(s@)[k] by {
                if i * 16 <= k {
                    vstd::arithmetic::div_mod::lemma_fundamental_div_mod_converse(
                        k,
                        16,
                        i as int,
                        k - i * 16,
                    );
                    assert(u128s_bytes(s@)[k] == u128_bytes(s@[k / 16])[k % 16]);
                }
            }
        }
        i = i + 1;
    }
    proof {
        assert(r@ =~= u128s_bytes(s@));
    }
    r
}

fn u128s_from_vec(v: &Vec<u8>, count: usize) -> (r: Vec<u128>)
    requires
        v@.len() == count * 16,
    ensures
        r@.len() == count,
        u128s_bytes(r@) == v@,
{
    let total: usize = v.len();
    let mut r: Vec<u128> = Vec::new();
    let mut i: usize = 0;
    while i < count
        invariant
            i <= count,
            v@.len() == count * 16,
            total == count * 16,
            r@.len() == i,
            forall|j: int|
                0 <= j < i ==> u128_bytes(r@[j]) == v@.subrange(j * 16, j * 16 + 16),
        decreases count - i,
    {
        let mut piece: Vec<u8> = Vec::new();
        let mut j: usize = 0;
        while j < 16
            invariant
                j <= 16,
                0 <= i < count,
                v@.len() == count * 16,
                total == count * 16,
                piece@.len() == j,
                forall|k: int| 0 <= k < j ==> piece@[k] == v@[i * 16 + k],
            decreases 16 - j,
        {
            piece.push(v[i * 16 + j]);
            j = j + 1;
        }
        let w: u128 = u128_from_vec(&piece);
        proof {
            assert(u128_bytes(w) =~= v@.subrange(i as int * 16, i as int * 16 + 16));
        }
        r.push(w);
        i = i + 1;
    }
    proof {
        assert(u128s_bytes(r@) =~= v@) by {
            assert forall|k: int| 0 <= k < count * 16 implies u128s_bytes(r@)[k] == v@[k] by {
                let j = k / 16;
                vstd::arithmetic::div_mod::lemma_fundamental_div_mod(k, 16);
                vstd::arithmetic::div_mod::lemma_mod_bound(k, 16);
                assert(u128_bytes(r@[j]) == v@.subrange(j * 16, j * 16 + 16));
                assert(v@.subrange(j * 16, j * 16 + 16)[k % 16] == v@[k]);
            }
        }
    }
    r
}

impl BigEndianBitString for u128 {
    open spec fn element_bits() -> nat {
        128
    }

    open spec fn element_seq(&self) -> Seq<bool> {
        bytes_bits(u128_bytes(*self))
    }

    open spec fn elements_bits(s: Seq<u128>) -> Seq<bool> {
        bytes_bits(u128s_bytes(s))
    }

    proof fn lemma_element_seq_len(&self) {
    }

    proof fn lemma_elements_bits(s: Seq<u128>) {
        lemma_len_scale(s.len(), 128, 16);
        assert forall|i: int|
            0 <= i < s.len() * 128 implies Self::elements_bits(s)[i] == s[i / (
        Self::element_bits() as int)].element_seq()[i % (Self::element_bits() as int)] by {
            crate::bits::lemma_index_split(i, 16);
            assert(Self::elements_bits(s)[i] == byte_bit(u128s_bytes(s)[i / 8], i % 8));
            assert(u128s_bytes(s)[i / 8] == u128_bytes(s[(i / 8) / 16])[(i / 8) % 16]);
            assert((i / 8) / 16 == i / 128);
            assert(s[i / 128].element_seq()[i % 128] == byte_bit(
                u128_bytes(s[i / 128])[(i % 128) / 8],
                (i % 128) % 8,
            ));
        }
    }

    fn mask(ndx: usize) -> (r: u128)
        ensures
            forall|i: int|
                0 <= i < 128 ==> (r.element_seq()[i] <==> i == (ndx as int) % 128),
    {
        let nin: usize = ndx % 128;
        let mut v: Vec<u8> = Vec::new();
        let mut j: usize = 0;
        while j < 16
            invariant
                j <= 16,
                nin == ndx % 128,
                v@.len() == j,
                forall|t: int| 0 <= t < j && t != nin / 8 ==> v@[t] == 0,
                nin / 8 < j ==> forall|bi: int|
                    0 <= bi < 8 ==> #[trigger] byte_bit(v@[nin as int / 8], bi) == (bi
                        == nin as int % 8),
            decreases 16 - j,
        {
            if j == nin / 8 {
                v.push(mask(nin));
            } else {
                v.push(0);
            }
            j = j + 1;
        }
        let r: u128 = u128_from_vec(&v);
        proof {
            lemma_byte_extremes();
            assert(nin as int == 8 * (nin as int / 8) + nin as int % 8);
            assert forall|i: int| 0 <= i < 128 implies (r.element_seq()[i] <==> i == (
            ndx as int) % 128) by {
                assert(i == 8 * (i / 8) + i % 8);
                assert(r.element_seq()[i] == byte_bit(u128_bytes(r)[i / 8], i % 8));
                assert(u128_bytes(r)[i / 8] == v@[i / 8]);
                if i / 8 != nin / 8 {
                    assert(v@[i / 8] == 0);
                    assert(!byte_bit(0u8, i % 8));
                }
            }
        }
        r
    }

    fn inc(slice: &mut Vec<u128>, prefix: usize) -> (overflow: bool) {
        proof {
            lemma_len_scale(old(slice)@.len(), 128, 16);
        }
        let n: usize = slice.len();
        let mut bytes: Vec<u8> = u128s_to_vec(slice);
        let overflow: bool = slice_inc(&mut bytes, prefix);
        *slice = u128s_from_vec(&bytes, n);
        overflow
    }

    fn get(slice: &Vec<u128>, ndx: usize) -> (r: bool) {
        proof {
            lemma_len_scale(slice@.len(), 128, 16);
        }
        let bytes: Vec<u8> = u128s_to_vec(slice);
        slice_get(&bytes, ndx)
    }

    fn set(slice: &mut Vec<u128>, ndx: usize, bit: bool) {
        proof {
            lemma_len_scale(old(slice)@.len(), 128, 16);
        }
        let n: usize = slice.len();
        let mut bytes: Vec<u8> = u128s_to_vec(slice);
        slice_set(&mut bytes, ndx, bit);
        *slice = u128s_from_vec(&bytes, n);
    }

    fn flip(slice: &mut Vec<u128>, ndx: usize) {
        proof {
            lemma_len_scale(old(slice)@.len(), 128, 16);
        }
        let n: usize = slice.len();
        let mut bytes: Vec<u8> = u128s_to_vec(slice);
        slice_flip(&mut bytes, ndx);
        *slice = u128s_from_vec(&bytes, n);
    }

    fn shared_prefix_len(slice: &Vec<u128>, other: &Vec<u128>, max_len: usize) -> (r: usize) {
        proof {
            lemma_len_scale(slice@.len(), 128, 16);
        }
        let a: Vec<u8> = u128s_to_vec(slice);
        let b: Vec<u8> = u128s_to_vec(other);
        slice_shared_prefix_len(&a, &b, max_len)
    }

    fn set_false_from(slice: &mut Vec<u128>, ndx: usize) {
        proof {
            lemma_len_scale(old(slice)@.len(), 128, 16);
        }
        let n: usize = slice.len();
        let mut bytes: Vec<u8> = u128s_to_vec(slice);
        slice_set_false_from(&mut bytes, ndx);
        *slice = u128s_from_vec(&bytes, n);
    }

    fn is_false_from(slice: &Vec<u128>, ndx: usize) -> (r: bool) {
        proof {
            lemma_len_scale(slice@.len(), 128, 16);
        }
        let bytes: Vec<u8> = u128s_to_vec(slice);
        slice_is_false_from(&bytes, ndx)
    }

    fn set_true_from(slice: &mut Vec<u128>, ndx: usize) {
        proof {
            lemma_len_scale(old(slice)@.len(), 128, 16);
        }
        let n: usize = slice.len();
        let mut bytes: Vec<u8> = u128s_to_vec(slice);
        slice_set_true_from(&mut bytes, ndx);
        *slice = u128s_from_vec(&bytes, n);
    }

    fn is_true_from(slice: &Vec<u128>, ndx: usize) -> (r: bool) {
        proof {
            lemma_len_scale(slice@.len(), 128, 16);
        }
        let bytes: Vec<u8> = u128s_to_vec(slice);
        slice_is_true_from(&bytes, ndx)
    }

    fn contains(slice: &Vec<u128>, prefix: usize, other: &Vec<u128>) -> (r: bool) {
        proof {
            lemma_len_scale(slice@.len(), 128, 16);
        }
        let a: Vec<u8> = u128s_to_vec(slice);
        let b: Vec<u8> = u128s_to_vec(other);
        slice_contains(&a, prefix, &b)
    }
}

} // verus!
