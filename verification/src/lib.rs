//! Block-oriented lossless compression in the LZ77 family.
//!
//! [`compress`] turns a buffer of bytes into a block of literal runs and
//! references to earlier bytes; [`decompress`] replays such a block. Each
//! call works in one pass on two buffers that the caller supplies, keeps
//! nothing between calls, and allocates nothing.
//!
//! The parts, leaves first:
//!
//! - [`index`]: the hash index, a fixed table from signatures of three bytes
//!   to the last position that carried them;
//! - [`finder`]: the match finder, which decides at each position between a
//!   literal byte and a reference;
//! - [`format`] and [`stream`]: tokens, their encoding, and what a stream of
//!   them expands to;
//! - [`buffer`]: writes into a caller's buffer;
//! - [`encode`] and [`decode`]: the two directions of the block codec;
//! - [`laws`]: what holds of the two together.
//!
//! There is one strategy, whatever the size of the input: a window of 8192
//! bytes, references of 3 to 264 bytes, one candidate per position, and every
//! position entered in the index. Input and output are borrowed apart, so
//! they cannot overlap. A block carries no header and no length: a caller
//! that stores blocks keeps the length of the input beside them.

pub mod buffer;
pub mod decode;
pub mod encode;
pub mod error;
pub mod finder;
pub mod format;
pub mod index;
pub mod laws;
pub mod stream;

pub use crate::decode::decompress;
pub use crate::encode::{compress, MIN_INPUT_LEN, MIN_OUTPUT_LEN};
pub use crate::error::{CompressError, DecompressError};
