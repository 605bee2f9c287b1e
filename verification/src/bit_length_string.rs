//! Extend a fixed bit string to a variable-length bit string by also
//! storing a logical length.

use vstd::prelude::*;

verus! {

use core::cmp::Ordering;
use crate::bits::{agree_below, false_from, lex_ordering, min_nat, shared_prefix};
use crate::bit_string::BitString;
use crate::fixed_bit_string::FixedBitString;

/// A fixed bit string of capacity `W::spec_len()` together with a
/// logical length. Every stored bit at or past the length is kept false,
/// so structural equality and hashing of the pair coincide with semantic
/// equality of the visible bit string.
#[derive(Copy, Debug, Hash)]
pub struct BitLengthString<W: FixedBitString> {
    /// underlying bit string with fixed length
    bits: W,
    /// current logical length; never exceeds the capacity
    len: usize,
}

impl<W: FixedBitString> BitLengthString<W> {
    /// The stored bits past the logical length are all false, and the
    /// length is within the capacity.
    #[verifier::type_invariant]
    spec fn inv(self) -> bool {
        self.len as nat <= W::spec_len() && false_from(self.bits.bits(), self.len as int)
    }
}

impl<W: FixedBitString + Copy> BitLengthString<W> {
    /// Create a new dynamic-length bit string from a fixed bit string
    /// and a length; the bits at index `len` and beyond are set to
    /// false.
    pub fn new(bits: W, len: usize) -> (r: Self)
        requires
            len as nat <= W::spec_len(),
        ensures
            r.bit_seq() == bits.bits().take(len as int),
    {
        let mut normalized: W = bits;
        normalized.set_false_from(len);
        proof {
            bits.lemma_bits_len();
            normalized.lemma_bits_len();
        }
        let r = BitLengthString { bits: normalized, len };
        proof {
            assert(r.bit_seq() =~= bits.bits().take(len as int));
        }
        r
    }

    /// Whether the bit string `bits` starts with all of this string's
    /// visible bits.
    pub fn contains(&self, bits: &W) -> (r: bool)
        ensures
            r == agree_below(self.bit_seq(), bits.bits(), self.bit_seq().len() as int),
    {
        proof {
            use_type_invariant(self);
            self.bits.lemma_bits_len();
            bits.lemma_bits_len();
        }
        let r: bool = self.bits.contains(self.len, bits);
        proof {
            assert forall|i: int| 0 <= i < self.len implies self.bit_seq()[i] == self.bits.bits()[i] by {
            }
        }
        r
    }

    /// Read access to the underlying fixed bit string: it starts with
    /// the visible bits and is false from the logical length on.
    pub fn bits(&self) -> (r: &W)
        ensures
            r.bits().len() == W::spec_len(),
            r.bits().take(self.bit_seq().len() as int) == self.bit_seq(),
            false_from(r.bits(), self.bit_seq().len() as int),
    {
        proof {
            use_type_invariant(self);
            self.bits.lemma_bits_len();
        }
        &self.bits
    }

    /// Length of the visible bit string in bits.
    pub fn len(&self) -> (r: usize)
        ensures
            r as nat == self.bit_seq().len(),
    {
        proof {
            use_type_invariant(self);
            self.bits.lemma_bits_len();
        }
        self.len
    }
}

impl<W: FixedBitString + Copy> BitString for BitLengthString<W> {
    closed spec fn bit_seq(&self) -> Seq<bool> {
        self.bits.bits().take(min_nat(self.len as nat, self.bits.bits().len()) as int)
    }

    open spec fn capacity(&self) -> nat {
        W::spec_len()
    }

    proof fn lemma_len_within_capacity(&self) {
        self.bits.lemma_bits_len();
    }

    fn get(&self, ndx: usize) -> bool {
        proof {
            use_type_invariant(self);
            self.bits.lemma_bits_len();
        }
        self.bits.get(ndx)
    }

    fn set(&mut self, ndx: usize, bit: bool) {
        proof {
            use_type_invariant(&*self);
            self.bits.lemma_bits_len();
        }
        let mut w: W = self.bits;
        w.set(ndx, bit);
        self.bits = w;
        proof {
            assert(self.bit_seq() =~= old(self).bit_seq().update(ndx as int, bit));
        }
    }

    fn flip(&mut self, ndx: usize) {
        proof {
            use_type_invariant(&*self);
            self.bits.lemma_bits_len();
        }
        let bit: bool = self.bits.get(ndx);
        let mut w: W = self.bits;
        w.set(ndx, !bit);
        self.bits = w;
        proof {
            assert(self.bit_seq() =~= old(self).bit_seq().update(
                ndx as int,
                !old(self).bit_seq()[ndx as int],
            ));
        }
    }

    fn len(&self) -> usize {
        proof {
            use_type_invariant(self);
            self.bits.lemma_bits_len();
        }
        self.len
    }

    fn clip(&mut self, len: usize) {
        proof {
            use_type_invariant(&*self);
            self.bits.lemma_bits_len();
        }
        let mut w: W = self.bits;
        w.set_false_from(len);
        self.bits = w;
        if len < self.len {
            self.len = len;
        }
        proof {
            assert(self.bit_seq() =~= old(self).bit_seq().take(
                min_nat(len as nat, old(self).bit_seq().len()) as int,
            ));
        }
    }

    fn append(&mut self, bit: bool) {
        proof {
            use_type_invariant(&*self);
            self.bits.lemma_bits_len();
        }
        let cap: usize = W::len();
        let mut w: W = self.bits;
        w.set(self.len, bit);
        *self = BitLengthString { bits: w, len: self.len + 1 };
        proof {
            assert(self.bit_seq() =~= old(self).bit_seq().push(bit));
        }
    }

    fn null() -> Self {
        let bits: W = W::new_all_false();
        proof {
            bits.lemma_bits_len();
        }
        let r = BitLengthString { bits, len: 0 };
        proof {
            assert(r.bit_seq() =~= Seq::<bool>::empty());
        }
        r
    }

    fn shared_prefix_len(&self, other: &Self) -> usize {
        proof {
            use_type_invariant(self);
            use_type_invariant(other);
            self.bits.lemma_bits_len();
            other.bits.lemma_bits_len();
        }
        let w: usize = self.bits.shared_prefix_len(&other.bits);
        let max_len: usize = if self.len <= other.len {
            self.len
        } else {
            other.len
        };
        let r: usize = if w <= max_len {
            w
        } else {
            max_len
        };
        proof {
            let sa = self.bits.bits();
            let sb = other.bits.bits();
            let va = self.bit_seq();
            let vb = other.bit_seq();
            let m = min_nat(va.len(), vb.len());
            crate::bits::lemma_shared_prefix_props(sa, sb, W::spec_len());
            assert forall|i: int| 0 <= i < r implies va[i] == vb[i] by {
                assert(sa[i] == sb[i]);
            }
            if r < m {
                assert(sa[r as int] != sb[r as int]);
            }
            crate::bits::lemma_shared_prefix_unique(va, vb, m, r as int);
        }
        r
    }

    fn shared_prefix(&self, other: &Self) -> Self {
        let spl: usize = self.shared_prefix_len(other);
        proof {
            crate::bits::lemma_shared_prefix_props(
                self.bit_seq(),
                other.bit_seq(),
                min_nat(self.bit_seq().len(), other.bit_seq().len()),
            );
        }
        let mut r: BitLengthString<W> = *self;
        r.clip(spl);
        r
    }
}

impl<W: FixedBitString + Copy> Clone for BitLengthString<W> {
    fn clone(&self) -> (r: Self)
        ensures
            r == *self,
    {
        *self
    }
}

impl<W: FixedBitString + Copy> PartialEq for BitLengthString<W> {
    fn eq(&self, other: &Self) -> bool {
        let r: Ordering = self.lexicographic_cmp(other);
        match r {
            Ordering::Equal => true,
            _ => false,
        }
    }
}

impl<W: FixedBitString + Copy> Eq for BitLengthString<W> {

}

impl<W: FixedBitString + Copy> vstd::std_specs::cmp::PartialEqSpecImpl for BitLengthString<W> {
    open spec fn obeys_eq_spec() -> bool {
        true
    }

    open spec fn eq_spec(&self, other: &Self) -> bool {
        self.bit_seq() == other.bit_seq()
    }
}

impl<W: FixedBitString + Copy> PartialOrd for BitLengthString<W> {
    fn partial_cmp(&self, other: &Self) -> Option<Ordering> {
        Some(self.lexicographic_cmp(other))
    }
}

impl<W: FixedBitString + Copy> vstd::std_specs::cmp::PartialOrdSpecImpl for BitLengthString<W> {
    open spec fn obeys_partial_cmp_spec() -> bool {
        true
    }

    open spec fn partial_cmp_spec(&self, other: &Self) -> Option<Ordering> {
        Some(lex_ordering(self.bit_seq(), other.bit_seq()))
    }
}

impl<W: FixedBitString + Copy> Default for BitLengthString<W> {
    fn default() -> (r: Self)
        ensures
            r.bit_seq() == Seq::<bool>::empty(),
    {
        BitString::null()
    }
}

} // verus!
