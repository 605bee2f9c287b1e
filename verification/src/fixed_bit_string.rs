//! A capability interface over values with a compile-time-fixed total bit
//! length, and a lazy enumerator over all values sharing a prefix.

use vstd::prelude::*;

verus! {

use crate::bits::{agree_below, false_from, inc_bits, inc_overflow, shared_prefix, true_from};

/// A bit string with fixed length.
///
/// All bits must be mutable, and there must be no dependencies between
/// bits: setting one bit must not change any other bit.
pub trait FixedBitString: Sized {
    /// The value read as a big-endian bit sequence.
    spec fn bits(&self) -> Seq<bool>;

    /// The fixed total bit length of the type.
    spec fn spec_len() -> nat;

    /// Every value's bit sequence has the type's length.
    proof fn lemma_bits_len(&self)
        ensures
            self.bits().len() == Self::spec_len(),
    ;

    /// Length of the bit string in bits.
    fn len() -> (r: usize)
        ensures
            r as nat == Self::spec_len(),
    ;

    /// Treat the bit string as an integer, where bit 0 is the most
    /// significant bit, and increment by one without touching the first
    /// `prefix` bits; an all-true free suffix wraps to all false and
    /// reports overflow.
    fn inc(&mut self, prefix: usize) -> (overflow: bool)
        requires
            prefix as nat <= Self::spec_len(),
        ensures
            final (self).bits() == inc_bits(old(self).bits(), prefix as int),
            overflow == inc_overflow(old(self).bits(), prefix as int),
    ;

    /// Iterate through all bit strings sharing the first `prefix` bits,
    /// until `inc` overflows.
    fn iter(&self, prefix: usize) -> (r: Iter<Self>) where Self: Copy
        requires
            prefix as nat <= Self::spec_len(),
        ensures
            r.pending() == Some(*self),
            r.prefix_spec() == prefix as nat,
    ;

    /// Get the `ndx`th bit.
    fn get(&self, ndx: usize) -> (r: bool)
        requires
            (ndx as nat) < Self::spec_len(),
        ensures
            r == self.bits()[ndx as int],
    ;

    /// Set the `ndx`th bit to `bit`.
    fn set(&mut self, ndx: usize, bit: bool)
        requires
            (ndx as nat) < Self::spec_len(),
        ensures
            final (self).bits() == old(self).bits().update(ndx as int, bit),
    ;

    /// Flip the `ndx`th bit.
    fn flip(&mut self, ndx: usize)
        requires
            (ndx as nat) < Self::spec_len(),
        ensures
            final (self).bits() == old(self).bits().update(
                ndx as int,
                !old(self).bits()[ndx as int],
            ),
    ;

    /// Length of the longest shared prefix of two bit strings.
    fn shared_prefix_len(&self, other: &Self) -> (r: usize)
        ensures
            r as nat == shared_prefix(self.bits(), other.bits(), Self::spec_len()),
    ;

    /// Set all bits at index `ndx` and beyond to false; does nothing when
    /// `ndx` is past the end.
    fn set_false_from(&mut self, ndx: usize)
        ensures
            final (self).bits().len() == old(self).bits().len(),
            forall|i: int|
                0 <= i < old(self).bits().len() ==> final (self).bits()[i] == (i < ndx && old(
                    self,
                ).bits()[i]),
    ;

    /// Whether all bits at index `ndx` and beyond are false; vacuously
    /// true past the end.
    fn is_false_from(&self, ndx: usize) -> (r: bool)
        ensures
            r == false_from(self.bits(), ndx as int),
    ;

    /// Set all bits at index `ndx` and beyond to true; does nothing when
    /// `ndx` is past the end.
    fn set_true_from(&mut self, ndx: usize)
        ensures
            final (self).bits().len() == old(self).bits().len(),
            forall|i: int|
                0 <= i < old(self).bits().len() ==> final (self).bits()[i] == (i >= ndx || old(
                    self,
                ).bits()[i]),
    ;

    /// Whether all bits at index `ndx` and beyond are true; vacuously
    /// true past the end.
    fn is_true_from(&self, ndx: usize) -> (r: bool)
        ensures
            r == true_from(self.bits(), ndx as int),
    ;

    /// New bit string with all bits set to false.
    fn new_all_false() -> (r: Self)
        ensures
            false_from(r.bits(), 0),
    ;

    /// New bit string with all bits set to true.
    fn new_all_true() -> (r: Self)
        ensures
            true_from(r.bits(), 0),
    ;

    /// Whether another bit string `other` shares the first `prefix` bits
    /// with `self`.
    fn contains(&self, prefix: usize, other: &Self) -> (r: bool)
        requires
            prefix as nat <= Self::spec_len(),
        ensures
            r == agree_below(self.bits(), other.bits(), prefix as int),
    ;
}

/// Iterator over all `FixedBitString` values sharing a prefix with a
/// starting value, ending the step after `inc` reports overflow.
pub struct Iter<B> {
    next: Option<B>,
    prefix: usize,
}

impl<B> Iter<B> {
    /// The value the next call to `next` will yield, if any.
    pub closed spec fn pending(&self) -> Option<B> {
        self.next
    }

    /// The number of leading bits every yielded value keeps.
    pub closed spec fn prefix_spec(&self) -> nat {
        self.prefix as nat
    }

    /// Start an enumeration at `start`.
    pub fn new(start: B, prefix: usize) -> (r: Self)
        ensures
            r.pending() == Some(start),
            r.prefix_spec() == prefix as nat,
    {
        Iter { next: Some(start), prefix }
    }
}

impl<B: FixedBitString + Copy> Iter<B> {
    /// Yield the current value and advance it by `inc`; after an
    /// overflow the enumeration is exhausted.
    pub fn next(&mut self) -> (r: Option<B>)
        requires
            old(self).prefix_spec() <= B::spec_len(),
        ensures
            final (self).prefix_spec() == old(self).prefix_spec(),
            r == old(self).pending(),
            old(self).pending() is None ==> final (self).pending() is None,
            (old(self).pending() is Some && inc_overflow(
                (old(self).pending()->0).bits(),
                old(self).prefix_spec() as int,
            )) ==> final (self).pending() is None,
            (old(self).pending() is Some && !inc_overflow(
                (old(self).pending()->0).bits(),
                old(self).prefix_spec() as int,
            )) ==> (final (self).pending() is Some && (final (self).pending()->0).bits()
                == inc_bits((old(self).pending()->0).bits(), old(self).prefix_spec() as int)),
    {
        let mut overflow: bool = false;
        let result: Option<B> = match self.next {
            None => None,
            Some(cur) => {
                let mut advanced: B = cur;
                overflow = advanced.inc(self.prefix);
                self.next = Some(advanced);
                Some(cur)
            },
        };
        if overflow {
            self.next = None;
        }
        result
    }
}

} // verus!
