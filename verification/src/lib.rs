//! Incremental, zero-copy UTF-8 decoding.
//!
//! Bytes arrive in chunks of any size. Well-formed text is handed out as slices borrowed from
//! the chunk, a code point cut in two by a chunk boundary is put back together, and every
//! ill-formed byte run is reported as one error (or replaced by U+FFFD in lossy decoding).
//! What is decoded never depends on where the chunk boundaries fall.
pub mod classify;
pub mod decoder;
pub mod incomplete;
pub mod laws;
pub mod lossy;
pub mod model;
pub mod read;
pub mod scan;
pub mod text;

pub use classify::{
    is_continuation_byte, utf8_char_width, valid_four_bytes_sequence_prefix,
    valid_three_bytes_sequence_prefix,
};
pub use incomplete::{IncompleteChar, TryCompleteResult};
pub use scan::{decode, utf8error_resume_from, valid_prefix_len, DecodeResult, InvalidSequence};
pub use lossy::{LossyDecoder, REPLACEMENT_CHARACTER};
pub use decoder::{CodePoint, DecodedPiece, Decoder};
pub use read::{BufReadDecoder, BufReadDecoderError, Step};
