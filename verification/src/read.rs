//! Decoding a stream that is read through a buffer.
//!
//! The decoder here does no reading. It is shown the buffer and says what to hand out and
//! how many bytes of the buffer that uses up; whoever owns the byte source consumes them and
//! fills the buffer again.
use crate::incomplete::{IncompleteChar, Progress};
use crate::laws::{lemma_front_scalar, lemma_scalar_text, lemma_valid_up_to};
use crate::lossy::replacement_str;
use crate::model::{read_consumed, read_pending, read_step, replacement, ReadStep};
use crate::scan::{utf8error_resume_from, valid_prefix_len};
use crate::text::text_of;
use vstd::prelude::*;

verus! {

/// One UTF-8 error in the byte stream.
///
/// In lossy decoding, each error is replaced with U+FFFD.
#[derive(Debug, Copy, Clone)]
pub struct BufReadDecoderError<'a> {
    pub invalid_sequence: &'a [u8],
}

/// One step of reading.
#[derive(Debug)]
pub enum Step<T> {
    /// The end of the stream.
    Eof,
    /// Nothing to hand out yet: consume what was used and show the refilled buffer.
    NeedMore,
    /// The next chunk.
    Chunk(T),
}

/// The model of a step of `BufReadDecoder::next`.
pub open spec fn step_view(step: Step<Result<&str, BufReadDecoderError<'_>>>) -> ReadStep {
    match step {
        Step::Eof => ReadStep::Eof,
        Step::NeedMore => ReadStep::NeedMore,
        Step::Chunk(Ok(text)) => ReadStep::Text(text@),
        Step::Chunk(Err(error)) => ReadStep::Invalid(error.invalid_sequence@),
    }
}

/// The model of a step of `BufReadDecoder::next_lossy`: an error reads as U+FFFD.
pub open spec fn lossy_step(step: ReadStep) -> Step<Seq<char>> {
    match step {
        ReadStep::Eof => Step::Eof,
        ReadStep::NeedMore => Step::NeedMore,
        ReadStep::Text(text) => Step::Chunk(text),
        ReadStep::Invalid(_) => Step::Chunk(seq![replacement()]),
    }
}

/// Decodes a buffered byte stream as UTF-8, one chunk at a time.
///
/// Before each call of `next`, the owner of the byte source consumes as many bytes as the
/// last step used up and fills the buffer; an empty buffer stands for the end of the
/// stream.
#[derive(Debug, Copy, Clone)]
pub struct BufReadDecoder {
    bytes_consumed: usize,
    incomplete: IncompleteChar,
}

impl BufReadDecoder {
    /// The bytes of a sequence that the buffer cut off, empty if there is none.
    pub closed spec fn pending(&self) -> Seq<u8> {
        self.incomplete@
    }

    /// How many bytes of the buffer the last step used up.
    pub closed spec fn consumed(&self) -> nat {
        self.bytes_consumed as nat
    }

    /// A decoder at the start of a stream.
    pub fn new() -> (r: BufReadDecoder)
        ensures
            r.pending() == Seq::<u8>::empty(),
            r.consumed() == 0,
    {
        BufReadDecoder { bytes_consumed: 0, incomplete: IncompleteChar::empty() }
    }

    /// How many bytes of the buffer the last step used up. They are to be consumed before
    /// the buffer is shown again.
    pub fn bytes_consumed(&self) -> (n: usize)
        ensures
            n == self.consumed(),
    {
        self.bytes_consumed
    }

    /// Hands over the number of bytes that the last step used up, for the owner of the
    /// byte source to consume, and counts them as consumed.
    pub fn take_bytes_consumed(&mut self) -> (n: usize)
        ensures
            n == old(self).consumed(),
            final(self).consumed() == 0,
            final(self).pending() == old(self).pending(),
    {
        let n = self.bytes_consumed;
        self.bytes_consumed = 0;
        n
    }

    /// Decodes the next chunk of the stream, of which `buf` shows what comes next.
    ///
    /// With nothing waiting, the chunk is the well-formed run at the front of the buffer,
    /// or else the ill-formed run there; a sequence that the buffer cuts off is taken in,
    /// and more input is asked for. With a sequence waiting, the buffer continues it: the
    /// chunk is the completed code point or the ill-formed run, and if the stream ends
    /// instead, what was waiting is an ill-formed run.
    pub fn next<'a>(&'a mut self, buf: &'a [u8]) -> (r: Step<
        Result<&'a str, BufReadDecoderError<'a>>,
    >)
        ensures
            step_view(r) == read_step(old(self).pending(), buf@),
            final(self).consumed() == read_consumed(old(self).pending(), buf@),
            final(self).pending() == read_pending(old(self).pending(), buf@),
    {
        let ghost held = self.pending();
        self.bytes_consumed = 0;
        if self.incomplete.is_empty() {
            if buf.is_empty() {
                return Step::Eof;
            }
            assert(held + buf@ =~= buf@);
            let valid_up_to = valid_prefix_len(buf);
            proof {
                lemma_valid_up_to(buf@);
                lemma_front_scalar(buf@);
                assert(buf@.skip(0) =~= buf@);
            }
            if valid_up_to > 0 {
                self.bytes_consumed = valid_up_to;
                let valid = vstd::slice::slice_subrange(buf, 0, valid_up_to);
                return Step::Chunk(Ok(text_of(valid)));
            }
            match utf8error_resume_from(0, buf) {
                Some(invalid_sequence_length) => {
                    self.bytes_consumed = invalid_sequence_length;
                    let invalid = vstd::slice::slice_subrange(buf, 0, invalid_sequence_length);
                    Step::Chunk(Err(BufReadDecoderError { invalid_sequence: invalid }))
                },
                None => {
                    self.bytes_consumed = buf.len();
                    self.incomplete = IncompleteChar::new(buf);
                    Step::NeedMore
                },
            }
        } else {
            if buf.is_empty() {
                let n = self.incomplete.give_up();
                return Step::Chunk(
                    Err(BufReadDecoderError { invalid_sequence: self.incomplete.held_bytes(n) }),
                );
            }
            let (consumed, progress, n) = self.incomplete.try_complete_offsets(buf);
            self.bytes_consumed = consumed;
            match progress {
                Progress::StillIncomplete => Step::NeedMore,
                Progress::Completed => {
                    proof {
                        lemma_scalar_text(held + buf@);
                    }
                    Step::Chunk(Ok(text_of(self.incomplete.held_bytes(n))))
                },
                Progress::Invalid => Step::Chunk(
                    Err(BufReadDecoderError { invalid_sequence: self.incomplete.held_bytes(n) }),
                ),
            }
        }
    }

    /// Same as `next`, but an error is replaced with U+FFFD.
    pub fn next_lossy<'a>(&'a mut self, buf: &'a [u8]) -> (r: Step<&'a str>)
        ensures
            match r {
                Step::Eof => lossy_step(read_step(old(self).pending(), buf@)) == Step::<
                    Seq<char>,
                >::Eof,
                Step::NeedMore => lossy_step(read_step(old(self).pending(), buf@)) == Step::<
                    Seq<char>,
                >::NeedMore,
                Step::Chunk(text) => lossy_step(read_step(old(self).pending(), buf@))
                    == Step::Chunk(text@),
            },
            final(self).consumed() == read_consumed(old(self).pending(), buf@),
            final(self).pending() == read_pending(old(self).pending(), buf@),
    {
        match self.next(buf) {
            Step::Eof => Step::Eof,
            Step::NeedMore => Step::NeedMore,
            Step::Chunk(Ok(text)) => Step::Chunk(text),
            Step::Chunk(Err(_)) => Step::Chunk(replacement_str()),
        }
    }
}

} // verus!
