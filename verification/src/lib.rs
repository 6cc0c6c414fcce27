//! Interleave and deinterleave byte buffers at 16-bit word granularity,
//! as used for split ROM image storage, with an optional byte-order swap
//! inside each word.

pub mod codec;
