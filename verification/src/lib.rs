//! Segmented contiguous-storage containers: collections of equal- or
//! variable-length runs of plain copyable values ("segments") packed into a
//! single growable buffer, avoiding the per-segment heap allocation that a
//! `Vec<Vec<T>>` design incurs.
//!
//! Three container variants are provided:
//! - [`SlicedVec`]: equal-length segments stored back-to-back, with
//!   order-preserving and non-order-preserving removal strategies;
//! - [`SlicedSlab`]: stable integer keys layered over a [`SlicedVec`], with
//!   an ordered set of vacated slots, rekeying and compaction;
//! - [`VarSlicedVec`]: variable-length segments in one buffer plus a
//!   monotonic extents array (compressed sparse layout).
//!
//! Every public operation carries a contract over a mathematical view of the
//! container: a sequence of segments, each a sequence of elements.

pub mod slicedslab;
pub mod slicedvec;
pub mod varslicedvec;

pub use slicedslab::SlicedSlab;
pub use slicedvec::SlicedVec;
pub use varslicedvec::VarSlicedVec;
