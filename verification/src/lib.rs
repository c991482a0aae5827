//! A fixed-capacity store indexed by cyclically wrapping 16-bit sequence
//! numbers, as used by unreliable-transport protocol stacks to track recently
//! sent or received protocol units.
//!
//! The heart of the crate is the sequence buffer: a circular store whose
//! slots are reused as the retained window of sequence numbers slides
//! forward.  Because the counters wrap at 65536, "newer" and "older" are
//! decided by the half-cycle rule of [`compare`], and every slot carries a
//! tag so that a stale value can never be mistaken for the entry of a newer,
//! wrapped-around sequence number that maps to the same slot.

pub mod buffer;
pub mod compare;
pub mod manifest;

pub use buffer::SequenceBuffer;
pub use buffer::SequenceIterator;
pub use compare::sequence_greater_than;
pub use compare::sequence_less_than;
pub use compare::SequenceNumber;
pub use manifest::Manifest;
pub use manifest::ManifestType;
