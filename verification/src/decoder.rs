//! The pull decoder: one chunk in, its pieces out.
use crate::incomplete::{IncompleteChar, TryCompleteResult};
use crate::laws::{
    lemma_decoded_split, lemma_front_scalar, lemma_one_char, lemma_pending_resumable,
    lemma_valid_up_to,
};
use crate::lossy::replacement_str;
use crate::model::{
    feed_pieces, pending, piece_text, resumable, scan_pieces, valid_up_to, Piece,
};
use crate::scan::{decode, DecodeResult};
use crate::text::text_of;
use vstd::prelude::*;
use vstd::utf8::{
    decode_utf8, encode_utf8, encode_utf8_decode_utf8, encode_utf8_valid_utf8, valid_utf8,
};

verus! {

/// One code point, put back together from bytes that a chunk boundary had parted. It owns
/// its one to four bytes.
#[derive(Debug, Copy, Clone)]
pub struct CodePoint {
    bytes: [u8; 4],
    len: u8,
}

impl View for CodePoint {
    type V = Seq<char>;

    /// The text of the code point.
    closed spec fn view(&self) -> Seq<char> {
        decode_utf8(self.bytes@.take(self.len as int))
    }
}

impl CodePoint {
    #[verifier::type_invariant]
    spec fn well_formed(&self) -> bool {
        &&& self.len <= 4
        &&& valid_utf8(self.bytes@.take(self.len as int))
    }

    /// Copies a text of at most four bytes.
    pub(crate) fn new(text: &str) -> (r: CodePoint)
        requires
            encode_utf8(text@).len() <= 4,
        ensures
            r@ == text@,
    {
        let source = text.as_bytes();
        let mut bytes: [u8; 4] = [0, 0, 0, 0];
        let mut i: usize = 0;
        while i < source.len()
            invariant
                i <= source@.len() <= 4,
                bytes@.take(i as int) == source@.take(i as int),
            decreases source@.len() - i,
        {
            bytes[i] = source[i];
            i += 1;
            assert(bytes@.take(i as int) =~= source@.take(i as int));
        }
        proof {
            assert(source@.take(source@.len() as int) =~= source@);
            encode_utf8_valid_utf8(text@);
            encode_utf8_decode_utf8(text@);
        }
        CodePoint { bytes, len: source.len() as u8 }
    }

    /// The code point as a string slice.
    pub fn as_str(&self) -> (text: &str)
        ensures
            text@ == self@,
    {
        proof {
            use_type_invariant(self);
        }
        text_of(vstd::slice::slice_subrange(self.bytes.as_slice(), 0, self.len as usize))
    }
}

/// One piece of what a chunk decodes to.
#[derive(Debug, Copy, Clone)]
pub enum DecodedPiece<'a> {
    /// Well-formed text, as it stands in the chunk.
    InputSlice(&'a str),
    /// A code point that began in an earlier chunk.
    CodePoint(CodePoint),
    /// An ill-formed run was met. It stands for no text; lossy decoding puts U+FFFD here.
    Error,
}

impl<'a> View for DecodedPiece<'a> {
    type V = Piece;

    open spec fn view(&self) -> Piece {
        match *self {
            DecodedPiece::InputSlice(text) => Piece::Text(text@),
            DecodedPiece::CodePoint(code_point) => Piece::CodePoint(code_point@),
            DecodedPiece::Error => Piece::Invalid,
        }
    }
}

impl<'a> DecodedPiece<'a> {
    /// The text of the piece in lossy decoding: U+FFFD for an error.
    pub fn as_str(&self) -> (text: &str)
        ensures
            text@ == piece_text(self@),
    {
        match self {
            DecodedPiece::InputSlice(text) => text,
            DecodedPiece::CodePoint(code_point) => code_point.as_str(),
            DecodedPiece::Error => replacement_str(),
        }
    }
}

/// The models of a sequence of pieces.
pub open spec fn piece_views(pieces: Seq<DecodedPiece<'_>>) -> Seq<Piece> {
    pieces.map_values(|piece: DecodedPiece| piece@)
}

/// An incremental decoder. Its only state is the sequence, if any, that the last chunk
/// cut off.
pub struct Decoder {
    incomplete: Option<IncompleteChar>,
}

impl Decoder {
    #[verifier::type_invariant]
    spec fn well_formed(&self) -> bool {
        &&& self.incomplete matches Some(incomplete) ==> incomplete@.len() > 0
        &&& resumable(self.pending())
    }

    /// The bytes of the sequence that the last chunk cut off, empty if there is none.
    pub closed spec fn pending(&self) -> Seq<u8> {
        match self.incomplete {
            Some(incomplete) => incomplete@,
            None => Seq::empty(),
        }
    }

    /// A decoder at the start of a stream.
    pub fn new() -> (r: Decoder)
        ensures
            r.pending() == Seq::<u8>::empty(),
    {
        Decoder { incomplete: None }
    }

    /// Decodes one chunk.
    ///
    /// A sequence that the previous chunk cut off is continued first: it gives a code
    /// point, or an error if a byte of this chunk breaks it, or nothing at all if this
    /// chunk ends before it is decided. The rest of the chunk is scanned: each scan gives
    /// the text of its well-formed run, and an ill-formed run gives an error, after which
    /// the scan goes on. A sequence that this chunk cuts off is held over.
    pub fn feed<'a>(&mut self, chunk: &'a [u8]) -> (pieces: Vec<DecodedPiece<'a>>)
        ensures
            piece_views(pieces@) == feed_pieces(old(self).pending(), chunk@),
            final(self).pending() == pending(old(self).pending() + chunk@),
    {
        proof {
            use_type_invariant(&*self);
            lemma_pending_resumable(self.pending() + chunk@);
        }
        let ghost held = self.pending();
        let ghost target = feed_pieces(held, chunk@);
        let ghost left = pending(held + chunk@);
        let mut pieces: Vec<DecodedPiece<'a>> = Vec::new();
        let mut input = chunk;
        if let Some(mut incomplete) = self.incomplete {
            proof {
                lemma_front_scalar(held + chunk@);
            }
            match incomplete.try_complete(chunk) {
                TryCompleteResult::Completed(text, remaining) => {
                    proof {
                        lemma_one_char(text@[0]);
                        assert(text@ =~= seq![text@[0]]);
                    }
                    pieces.push(DecodedPiece::CodePoint(CodePoint::new(text)));
                    input = remaining;
                },
                TryCompleteResult::Error(_, remaining) => {
                    pieces.push(DecodedPiece::Error);
                    input = remaining;
                },
                TryCompleteResult::StillIncomplete => {
                    self.incomplete = Some(incomplete);
                    assert(piece_views(pieces@) =~= target);
                    return pieces;
                },
            }
            self.incomplete = None;
            assert(target =~= piece_views(pieces@) + scan_pieces(input@));
        } else {
            assert(held + chunk@ =~= chunk@);
            assert(target =~= piece_views(pieces@) + scan_pieces(input@));
        }
        loop
            invariant_except_break
                self.incomplete is None,
                target == piece_views(pieces@) + scan_pieces(input@),
                left == pending(input@),
            ensures
                target == piece_views(pieces@),
                left == self.pending(),
            decreases input@.len(),
        {
            proof {
                lemma_valid_up_to(input@);
                lemma_decoded_split(input@);
                if valid_up_to(input@) < input@.len() {
                    lemma_front_scalar(input@.skip(valid_up_to(input@) as int));
                }
            }
            let ghost before = piece_views(pieces@);
            match decode(input) {
                DecodeResult::Valid(text) => {
                    pieces.push(DecodedPiece::InputSlice(text));
                    assert(piece_views(pieces@) =~= before + seq![Piece::Text(text@)]);
                    assert(pending(input@.skip(input@.len() as int)) =~= Seq::<u8>::empty());
                    break ;
                },
                DecodeResult::Incomplete(text, incomplete) => {
                    pieces.push(DecodedPiece::InputSlice(text));
                    self.incomplete = Some(incomplete);
                    assert(piece_views(pieces@) =~= before + seq![Piece::Text(text@)]);
                    break ;
                },
                DecodeResult::Error(text, _, remaining) => {
                    pieces.push(DecodedPiece::InputSlice(text));
                    pieces.push(DecodedPiece::Error);
                    assert(piece_views(pieces@) =~= before + seq![
                        Piece::Text(text@),
                        Piece::Invalid,
                    ]);
                    input = remaining;
                },
            }
        }
        pieces
    }

    /// Ends the stream. A sequence that was cut off can no longer be completed: it is
    /// given up and reported as one error. The decoder is then at the start of a stream
    /// again.
    pub fn end_of_stream(&mut self) -> (r: Option<DecodedPiece<'static>>)
        ensures
            r is Some <==> old(self).pending().len() > 0,
            r matches Some(piece) ==> piece@ == Piece::Invalid,
            final(self).pending() == Seq::<u8>::empty(),
    {
        proof {
            use_type_invariant(&*self);
        }
        if self.incomplete.is_some() {
            self.incomplete = None;
            Some(DecodedPiece::Error)
        } else {
            None
        }
    }
}

} // verus!
