//! Decoder for macOS filesystem-event journal ("FSEvents") files.
//!
//! A decompressed journal file is a concatenation of blocks, each opened by a
//! 12-byte header (signature, padding, stream size) and packed with
//! variable-length event records. The decoder walks the buffer, selects the
//! record layout from each block's signature, and returns the ordered record
//! sequence; the batch layer isolates per-file failures and enforces a size
//! ceiling before decompression.

pub mod fsevents;
pub mod parser;
pub mod size;
