//! A bit string with variable (but bounded) length, and the two
//! prefix-aware orderings on such strings.

use vstd::prelude::*;

verus! {

use core::cmp::Ordering;
use crate::bits::{lex_ordering, min_nat, shared_prefix, subset_ordering};

/// A bit string with variable (but possibly limited) length.
///
/// An implementation that offers equality must compare the visible bits
/// alone: a value must not carry data beyond its bits, and must not
/// compare unused storage.
pub trait BitString: Sized {
    /// The visible bits of the string.
    spec fn bit_seq(&self) -> Seq<bool>;

    /// The number of bits the string can grow to.
    spec fn capacity(&self) -> nat;

    /// The visible bits never exceed the capacity.
    proof fn lemma_len_within_capacity(&self)
        ensures
            self.bit_seq().len() <= self.capacity(),
    ;

    /// Get the `ndx`th bit.
    fn get(&self, ndx: usize) -> (r: bool)
        requires
            (ndx as nat) < self.bit_seq().len(),
        ensures
            r == self.bit_seq()[ndx as int],
    ;

    /// Set the `ndx`th bit to `bit`.
    fn set(&mut self, ndx: usize, bit: bool)
        requires
            (ndx as nat) < old(self).bit_seq().len(),
        ensures
            final (self).bit_seq() == old(self).bit_seq().update(ndx as int, bit),
            final (self).capacity() == old(self).capacity(),
    ;

    /// Flip the `ndx`th bit.
    fn flip(&mut self, ndx: usize)
        requires
            (ndx as nat) < old(self).bit_seq().len(),
        ensures
            final (self).bit_seq() == old(self).bit_seq().update(
                ndx as int,
                !old(self).bit_seq()[ndx as int],
            ),
            final (self).capacity() == old(self).capacity(),
    ;

    /// Current length of the bit string in bits.
    fn len(&self) -> (r: usize)
        ensures
            r as nat == self.bit_seq().len(),
    ;

    /// Truncate the string to `len` bits; does nothing if it is already
    /// no longer than that.
    fn clip(&mut self, len: usize)
        ensures
            final (self).bit_seq() == old(self).bit_seq().take(
                min_nat(len as nat, old(self).bit_seq().len()) as int,
            ),
            final (self).capacity() == old(self).capacity(),
    ;

    /// Append a bit.
    fn append(&mut self, bit: bool)
        requires
            old(self).bit_seq().len() < old(self).capacity(),
        ensures
            final (self).bit_seq() == old(self).bit_seq().push(bit),
            final (self).capacity() == old(self).capacity(),
    ;

    /// Create a new zero-length bit string.
    fn null() -> (r: Self)
        ensures
            r.bit_seq() == Seq::<bool>::empty(),
    ;

    /// Length of the longest shared prefix of two bit strings.
    fn shared_prefix_len(&self, other: &Self) -> (r: usize)
        ensures
            r as nat == shared_prefix(
                self.bit_seq(),
                other.bit_seq(),
                min_nat(self.bit_seq().len(), other.bit_seq().len()),
            ),
    {
        let a_len: usize = self.len();
        let b_len: usize = other.len();
        let max_len: usize = if a_len <= b_len {
            a_len
        } else {
            b_len
        };
        let ghost m = min_nat(self.bit_seq().len(), other.bit_seq().len());
        let mut i: usize = 0;
        while i < max_len
            invariant
                i <= max_len,
                max_len as nat == m,
                m == min_nat(self.bit_seq().len(), other.bit_seq().len()),
                forall|k: int| 0 <= k < i ==> self.bit_seq()[k] == other.bit_seq()[k],
            decreases max_len - i,
        {
            if self.get(i) != other.get(i) {
                proof {
                    crate::bits::lemma_shared_prefix_unique(
                        self.bit_seq(),
                        other.bit_seq(),
                        m,
                        i as int,
                    );
                }
                return i;
            }
            i = i + 1;
        }
        proof {
            crate::bits::lemma_shared_prefix_unique(
                self.bit_seq(),
                other.bit_seq(),
                m,
                max_len as int,
            );
        }
        max_len
    }

    /// Longest shared prefix of two bit strings.
    fn shared_prefix(&self, other: &Self) -> (r: Self) where Self: Clone
        ensures
            r.bit_seq() == self.bit_seq().take(
                shared_prefix(
                    self.bit_seq(),
                    other.bit_seq(),
                    min_nat(self.bit_seq().len(), other.bit_seq().len()),
                ) as int,
            ),
    ;

    /// Partial ordering on bit strings: `a < b` exactly when `a != b` and
    /// `b` is a prefix of `a`. Read as the set of all extensions, this is
    /// the subset relation; strings where neither is a prefix of the
    /// other are incomparable.
    fn subset_cmp(&self, other: &Self) -> (r: Option<Ordering>)
        ensures
            r == subset_ordering(self.bit_seq(), other.bit_seq()),
    {
        let spl: usize = self.shared_prefix_len(other);
        let a_len: usize = self.len();
        let b_len: usize = other.len();
        proof {
            crate::bits::lemma_ordering_char(self.bit_seq(), other.bit_seq());
        }
        if spl == a_len {
            if spl == b_len {
                Some(Ordering::Equal)
            } else {
                Some(Ordering::Greater)
            }
        } else if spl == b_len {
            Some(Ordering::Less)
        } else {
            None
        }
    }

    /// Lexicographic ordering on bit strings: a proper prefix sorts
    /// before its extensions, and otherwise the first differing bit
    /// decides, false before true.
    fn lexicographic_cmp(&self, other: &Self) -> (r: Ordering)
        ensures
            r == lex_ordering(self.bit_seq(), other.bit_seq()),
    {
        let spl: usize = self.shared_prefix_len(other);
        let a_len: usize = self.len();
        let b_len: usize = other.len();
        proof {
            crate::bits::lemma_ordering_char(self.bit_seq(), other.bit_seq());
            crate::bits::lemma_shared_prefix_props(
                self.bit_seq(),
                other.bit_seq(),
                min_nat(self.bit_seq().len(), other.bit_seq().len()),
            );
        }
        if spl == a_len {
            if spl == b_len {
                Ordering::Equal
            } else {
                Ordering::Less
            }
        } else if spl == b_len {
            Ordering::Greater
        } else {
            if self.get(spl) {
                Ordering::Greater
            } else {
                Ordering::Less
            }
        }
    }
}

} // verus!
