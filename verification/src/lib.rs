//! A block-wise frame-of-reference bit-packing codec for columnar storage.
//!
//! A column of `u64` values is cut into blocks of 128 values.  Each block is
//! stored as bit-packed offsets from the block's minimum, using the smallest
//! workable bit width for the block, and is flushed to a byte boundary so a
//! reader can jump straight to any block.  A self-describing footer at the end
//! of the buffer records the global statistics and one `(min, num_bits)` pair
//! per block; the last four bytes give the footer's own length.
//!
//! `serializer` builds the byte buffer, `reader` answers random-access `get`
//! queries over it in constant time, and `laws` proves that decoding returns
//! exactly the values that were encoded.

pub mod bits;
pub mod pack;
pub mod format;
pub mod serializer;
pub mod reader;
pub mod laws;
