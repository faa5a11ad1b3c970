//! Decoder for a prefix-free (Huffman-style) binary encoding.
//!
//! An encoded file carries two little-endian `u64` headers (the decoded
//! length and the byte length of the dictionary section), a dictionary of
//! fixed-size code records, and a packed bitstream.  The library parses the
//! dictionary into a lookup table and replays the bitstream bit by bit,
//! emitting one byte for every complete code, until the declared output
//! length is reached.

pub mod bits;
pub mod decoder;
pub mod prefix_code;
pub mod table;
pub mod wire;
