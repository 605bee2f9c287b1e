//! Treat fixed-size binary values as big-endian bit strings, with the
//! operations needed for CIDR-style prefix reasoning: bit get/set/flip,
//! shared-prefix length, prefix containment, prefix-preserving increment,
//! and prefix-aware orderings on variable-length bit strings.

pub mod bigendian;
pub mod bit_length_string;
pub mod bit_string;
pub mod bits;
pub mod fixed_bit_string;
pub mod laws;
pub mod words;

pub use bigendian::BigEndianBitString;
pub use bit_length_string::BitLengthString;
pub use bit_string::BitString;
pub use fixed_bit_string::FixedBitString;
pub use fixed_bit_string::Iter;
