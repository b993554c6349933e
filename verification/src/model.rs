//! The mathematical model of decoding: what stands at the front of a byte sequence, how far
//! a sequence is well formed, and what a stream of bytes decodes to. The contracts of the
//! executable functions are stated over these definitions.
use crate::classify::{is_continuation, second_byte_ok, width};
use vstd::prelude::*;
use vstd::utf8::{decode_first_scalar, decode_utf8};

verus! {

/// What the front of a byte sequence amounts to.
pub enum Front {
    /// A well-formed encoding of one scalar value, of the given width.
    Scalar(nat),
    /// An ill-formed run of the given length: a byte that starts no sequence, or a lead byte
    /// with the bytes after it that passed their checks, cut short by a byte that did not.
    Invalid(nat),
    /// The bytes end inside a sequence that is well formed as far as it goes.
    Incomplete,
}

/// Number of bytes at the front of `s` that belong to one attempt at a code point: the lead
/// byte, and each following byte that passes the check for its position, up to the width
/// that the lead announces. The first byte that breaks the pattern is not counted.
pub open spec fn attempt_len(s: Seq<u8>) -> nat
    recommends
        s.len() > 0,
{
    let w = width(s[0]);
    if w <= 1 || s.len() < 2 || !second_byte_ok(s[0], s[1]) {
        1
    } else if w == 2 || s.len() < 3 || !is_continuation(s[2]) {
        2
    } else if w == 3 || s.len() < 4 || !is_continuation(s[3]) {
        3
    } else {
        4
    }
}

/// Classifies the front of a non-empty byte sequence.
pub open spec fn front(s: Seq<u8>) -> Front
    recommends
        s.len() > 0,
{
    let n = attempt_len(s);
    if n == width(s[0]) {
        Front::Scalar(n)
    } else if width(s[0]) > 0 && n == s.len() {
        Front::Incomplete
    } else {
        Front::Invalid(n)
    }
}

/// Length of the well-formed run at the front of `s`: scalars are stepped over until the
/// end of `s`, an ill-formed run or a cut-off sequence is met.
pub open spec fn valid_up_to(s: Seq<u8>) -> nat
    decreases s.len(),
{
    if s.len() == 0 {
        0
    } else {
        match front(s) {
            Front::Scalar(w) => w + valid_up_to(s.skip(w as int)),
            _ => 0,
        }
    }
}

/// The replacement character, which stands for one ill-formed run in lossy decoding.
pub open spec fn replacement() -> char {
    '\u{FFFD}'
}

/// The text that streaming through `s` gives: one character for each scalar, one
/// replacement character for each ill-formed run, and nothing yet for a sequence that the
/// end of `s` cuts off.
pub open spec fn decoded(s: Seq<u8>) -> Seq<char>
    decreases s.len(),
{
    if s.len() == 0 {
        Seq::empty()
    } else {
        match front(s) {
            Front::Scalar(w) => seq![decode_first_scalar(s) as char] + decoded(s.skip(w as int)),
            Front::Invalid(n) => seq![replacement()] + decoded(s.skip(n as int)),
            Front::Incomplete => Seq::empty(),
        }
    }
}

/// The bytes of the sequence that the end of `s` cuts off; empty if `s` ends on a boundary.
pub open spec fn pending(s: Seq<u8>) -> Seq<u8>
    decreases s.len(),
{
    if s.len() == 0 {
        Seq::empty()
    } else {
        match front(s) {
            Front::Scalar(w) => pending(s.skip(w as int)),
            Front::Invalid(n) => pending(s.skip(n as int)),
            Front::Incomplete => s,
        }
    }
}

/// What the end of the stream adds: a cut-off sequence can no longer be completed, so it
/// counts as one more ill-formed run.
pub open spec fn end_text(p: Seq<u8>) -> Seq<char> {
    if p.len() > 0 {
        seq![replacement()]
    } else {
        Seq::empty()
    }
}

/// The lossy decoding of a whole stream.
pub open spec fn lossy(s: Seq<u8>) -> Seq<char> {
    decoded(s) + end_text(pending(s))
}

/// A byte sequence that may be held over from one chunk to the next: nothing, or a
/// cut-off sequence.
pub open spec fn resumable(p: Seq<u8>) -> bool {
    p.len() == 0 || front(p) == Front::Incomplete
}

/// What scanning one buffer finds.
pub enum Scan {
    /// The whole buffer is well formed; this is its text.
    Valid(Seq<char>),
    /// An ill-formed run stopped the scan: the text before it, its bytes, and the bytes
    /// after it, where scanning resumes.
    Error(Seq<char>, Seq<u8>, Seq<u8>),
    /// The buffer ends inside a sequence: the text before it and its bytes so far.
    Incomplete(Seq<char>, Seq<u8>),
}

/// Scans one buffer: the text of its well-formed run, and what stopped the run.
pub open spec fn scan(s: Seq<u8>) -> Scan {
    let k = valid_up_to(s) as int;
    let text = decode_utf8(s.take(k));
    if k >= s.len() {
        Scan::Valid(text)
    } else {
        let tail = s.skip(k);
        match front(tail) {
            Front::Invalid(n) => Scan::Error(text, tail.take(n as int), tail.skip(n as int)),
            _ => Scan::Incomplete(text, tail),
        }
    }
}

/// What becomes of a cut-off sequence when more bytes arrive.
pub enum Completion {
    /// The new bytes completed it: its text, one character, and the bytes left over.
    Completed(Seq<char>, Seq<u8>),
    /// A new byte broke the pattern: the bytes of the ill-formed run (the offending byte
    /// is not among them), and the bytes left over, which start with it.
    Error(Seq<u8>, Seq<u8>),
    /// The new bytes all fit, and the sequence is still not complete.
    StillIncomplete,
}

/// Continues the cut-off sequence `p` with the bytes of `chunk`.
pub open spec fn complete(p: Seq<u8>, chunk: Seq<u8>) -> Completion
    recommends
        p.len() > 0,
        resumable(p),
{
    let joined = p + chunk;
    match front(joined) {
        Front::Scalar(w) => Completion::Completed(
            seq![decode_first_scalar(joined) as char],
            joined.skip(w as int),
        ),
        Front::Invalid(n) => Completion::Error(joined.take(n as int), joined.skip(n as int)),
        Front::Incomplete => Completion::StillIncomplete,
    }
}

/// One piece of decoder output.
pub enum Piece {
    /// Text that stands in the chunk as it is.
    Text(Seq<char>),
    /// One character whose bytes a chunk boundary had cut in two.
    CodePoint(Seq<char>),
    /// One ill-formed run.
    Invalid,
}

/// The text that a piece stands for in lossy decoding.
pub open spec fn piece_text(piece: Piece) -> Seq<char> {
    match piece {
        Piece::Text(text) => text,
        Piece::CodePoint(text) => text,
        Piece::Invalid => seq![replacement()],
    }
}

/// The pieces that scanning a chunk from a boundary gives: each scan hands out the text of
/// its well-formed run, which may be empty, and an ill-formed run is followed by the scan
/// of what comes after it.
pub open spec fn scan_pieces(s: Seq<u8>) -> Seq<Piece>
    decreases s.len(),
{
    let k = valid_up_to(s) as int;
    let text = Piece::Text(decode_utf8(s.take(k)));
    if k >= s.len() {
        seq![text]
    } else {
        let tail = s.skip(k);
        match front(tail) {
            Front::Invalid(n) => seq![text, Piece::Invalid] + scan_pieces(tail.skip(n as int)),
            _ => seq![text],
        }
    }
}

/// The pieces that a decoder which holds the bytes `p` gives for `chunk`: first what
/// becomes of the sequence that was cut off, then the scan of the rest of the chunk.
pub open spec fn feed_pieces(p: Seq<u8>, chunk: Seq<u8>) -> Seq<Piece> {
    if p.len() == 0 {
        scan_pieces(chunk)
    } else {
        let joined = p + chunk;
        match front(joined) {
            Front::Scalar(w) => seq![Piece::CodePoint(seq![decode_first_scalar(joined) as char])]
                + scan_pieces(joined.skip(w as int)),
            Front::Invalid(n) => seq![Piece::Invalid] + scan_pieces(joined.skip(n as int)),
            Front::Incomplete => Seq::empty(),
        }
    }
}

/// The texts of a sequence of pieces, one for each piece.
pub open spec fn piece_texts(pieces: Seq<Piece>) -> Seq<Seq<char>> {
    pieces.map_values(|piece: Piece| piece_text(piece))
}

/// All of the texts, one after the other.
pub open spec fn concat(texts: Seq<Seq<char>>) -> Seq<char>
    decreases texts.len(),
{
    if texts.len() == 0 {
        Seq::empty()
    } else {
        texts[0] + concat(texts.drop_first())
    }
}

/// The text that feeding the chunks one by one to a decoder which holds `p` gives, the
/// end of the stream included.
pub open spec fn chunked_text(p: Seq<u8>, chunks: Seq<Seq<u8>>) -> Seq<char>
    decreases chunks.len(),
{
    if chunks.len() == 0 {
        end_text(p)
    } else {
        concat(piece_texts(feed_pieces(p, chunks[0]))) + chunked_text(
            pending(p + chunks[0]),
            chunks.drop_first(),
        )
    }
}

/// The bytes of all the chunks, one after the other.
pub open spec fn joined(chunks: Seq<Seq<u8>>) -> Seq<u8>
    decreases chunks.len(),
{
    if chunks.len() == 0 {
        Seq::empty()
    } else {
        chunks[0] + joined(chunks.drop_first())
    }
}

/// One step of reading a stream through a buffer.
pub enum ReadStep {
    /// The stream has ended, and nothing was waiting.
    Eof,
    /// Nothing can be handed out yet: the buffer was taken up by a sequence that is still
    /// not complete.
    NeedMore,
    /// Text.
    Text(Seq<char>),
    /// The bytes of an ill-formed run.
    Invalid(Seq<u8>),
}

/// What a reader that holds the bytes `p` hands out when the buffer shows the bytes `b`
/// (none at the end of the stream).
pub open spec fn read_step(p: Seq<u8>, b: Seq<u8>) -> ReadStep {
    if p.len() == 0 {
        if b.len() == 0 {
            ReadStep::Eof
        } else if valid_up_to(b) > 0 {
            ReadStep::Text(decode_utf8(b.take(valid_up_to(b) as int)))
        } else {
            match front(b) {
                Front::Invalid(n) => ReadStep::Invalid(b.take(n as int)),
                _ => ReadStep::NeedMore,
            }
        }
    } else if b.len() == 0 {
        ReadStep::Invalid(p)
    } else {
        match front(p + b) {
            Front::Scalar(w) => ReadStep::Text(seq![decode_first_scalar(p + b) as char]),
            Front::Invalid(n) => ReadStep::Invalid((p + b).take(n as int)),
            Front::Incomplete => ReadStep::NeedMore,
        }
    }
}

/// How many bytes of the buffer that step uses up.
pub open spec fn read_consumed(p: Seq<u8>, b: Seq<u8>) -> nat {
    if b.len() == 0 {
        0
    } else if p.len() == 0 && valid_up_to(b) > 0 {
        valid_up_to(b)
    } else {
        match front(p + b) {
            Front::Incomplete => b.len(),
            _ => (attempt_len(p + b) - p.len()) as nat,
        }
    }
}

/// The bytes that the reader holds after that step.
pub open spec fn read_pending(p: Seq<u8>, b: Seq<u8>) -> Seq<u8> {
    if b.len() == 0 || (p.len() == 0 && valid_up_to(b) > 0) {
        Seq::empty()
    } else {
        match front(p + b) {
            Front::Incomplete => p + b,
            _ => Seq::empty(),
        }
    }
}

/// The text that a step of reading stands for in lossy decoding.
pub open spec fn step_text(step: ReadStep) -> Seq<char> {
    match step {
        ReadStep::Text(text) => text,
        ReadStep::Invalid(_) => seq![replacement()],
        _ => Seq::empty(),
    }
}

} // verus!
