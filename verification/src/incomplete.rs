//! A code point whose encoding a chunk boundary has cut in two.
use crate::classify::{
    is_continuation, is_continuation_byte, second_byte_ok, utf8_char_width, valid_second_byte,
    width,
};
use crate::laws::{lemma_front_scalar, lemma_scalar_text};
use crate::model::{attempt_len, complete, front, resumable, Completion, Front};
use crate::scan::InvalidSequence;
use crate::text::text_of;
use vstd::prelude::*;

verus! {

/// The bytes seen so far of a sequence that the end of a chunk cut off: one to three bytes,
/// each checked for its position when it came in. It is either waiting for more bytes or,
/// once the sequence has been decided, empty.
#[derive(Debug, Copy, Clone)]
pub struct IncompleteChar {
    buffer: [u8; 4],
    buffer_len: u8,
    char_width: u8,
}

impl View for IncompleteChar {
    type V = Seq<u8>;

    /// The bytes that are waiting to be completed.
    closed spec fn view(&self) -> Seq<u8> {
        self.buffer@.take(self.buffer_len as int)
    }
}

/// How `IncompleteChar::try_complete` ended.
pub enum TryCompleteResult<'char, 'input> {
    /// The sequence is complete: the code point, and the input that is left.
    Completed(&'char str, &'input [u8]),
    /// A byte of the input cannot continue the sequence: the bytes up to it, and the input
    /// that is left, which starts with that byte.
    Error(InvalidSequence<'char>, &'input [u8]),
    /// All of the input was taken and the sequence is still not complete.
    StillIncomplete,
}

impl<'char, 'input> View for TryCompleteResult<'char, 'input> {
    type V = Completion;

    open spec fn view(&self) -> Completion {
        match *self {
            TryCompleteResult::Completed(text, rest) => Completion::Completed(text@, rest@),
            TryCompleteResult::Error(invalid, rest) => Completion::Error(invalid.0@, rest@),
            TryCompleteResult::StillIncomplete => Completion::StillIncomplete,
        }
    }
}

/// How far a cut-off sequence got with new input.
pub enum Progress {
    /// The sequence is complete.
    Completed,
    /// A byte that cannot continue the sequence was met.
    Invalid,
    /// The input ran out first.
    StillIncomplete,
}

impl IncompleteChar {
    #[verifier::type_invariant]
    spec fn well_formed(&self) -> bool {
        &&& self.buffer_len <= 3
        &&& resumable(self@)
        &&& self.buffer_len > 0 ==> self.char_width == width(self.buffer[0])
    }

    /// The first `n` bytes of the buffer, which outlive the sequence that was decided.
    pub(crate) closed spec fn held(&self, n: int) -> Seq<u8> {
        self.buffer@.take(n)
    }

    /// Holds over the bytes of a sequence that the end of a buffer cut off.
    pub(crate) fn new(bytes: &[u8]) -> (r: IncompleteChar)
        requires
            bytes@.len() > 0,
            front(bytes@) == Front::Incomplete,
        ensures
            r@ == bytes@,
    {
        proof {
            lemma_front_scalar(bytes@);
        }
        let mut buffer: [u8; 4] = [0, 0, 0, 0];
        let mut i: usize = 0;
        while i < bytes.len()
            invariant
                i <= bytes.len() <= 3,
                buffer@.take(i as int) == bytes@.take(i as int),
            decreases bytes.len() - i,
        {
            buffer[i] = bytes[i];
            i += 1;
            assert(buffer@.take(i as int) =~= bytes@.take(i as int));
        }
        assert(bytes@.take(bytes@.len() as int) =~= bytes@);
        IncompleteChar {
            buffer,
            buffer_len: bytes.len() as u8,
            char_width: utf8_char_width(buffer[0]),
        }
    }

    /// Nothing waiting.
    pub(crate) fn empty() -> (r: IncompleteChar)
        ensures
            r@ == Seq::<u8>::empty(),
    {
        let r = IncompleteChar { buffer: [0, 0, 0, 0], buffer_len: 0, char_width: 0 };
        assert(r@ =~= Seq::<u8>::empty());
        r
    }

    /// Whether nothing is waiting.
    pub fn is_empty(&self) -> (b: bool)
        ensures
            b == (self@.len() == 0),
    {
        proof {
            use_type_invariant(self);
        }
        self.buffer_len == 0
    }

    /// Gives the sequence up: nothing is left waiting. Returns how many bytes were, which
    /// stay in the buffer.
    pub(crate) fn give_up(&mut self) -> (n: usize)
        ensures
            final(self)@ == Seq::<u8>::empty(),
            n == old(self)@.len(),
            n <= 3,
            final(self).held(n as int) == old(self)@,
    {
        proof {
            use_type_invariant(&*self);
        }
        let n = self.buffer_len as usize;
        let buffer = self.buffer;
        assert(buffer@.take(0) =~= Seq::<u8>::empty());
        *self = IncompleteChar { buffer, buffer_len: 0, char_width: self.char_width };
        n
    }

    /// The first `n` bytes of the buffer.
    pub(crate) fn held_bytes(&self, n: usize) -> (r: &[u8])
        requires
            n <= 4,
        ensures
            r@ == self.held(n as int),
    {
        vstd::slice::slice_subrange(self.buffer.as_slice(), 0, n)
    }

    /// Takes bytes from the front of `input` for as long as they continue the sequence.
    /// Returns how many were taken, how it ended, and how many bytes of the buffer hold
    /// the sequence that was decided. Unless the input ran out, nothing is left waiting.
    pub(crate) fn try_complete_offsets(&mut self, input: &[u8]) -> (r: (usize, Progress, usize))
        requires
            old(self)@.len() > 0,
        ensures
            ({
                let (consumed, progress, held) = r;
                let joined = old(self)@ + input@;
                let n = attempt_len(joined) as int;
                &&& consumed == n - old(self)@.len()
                &&& match progress {
                    Progress::Completed => front(joined) == Front::Scalar(n as nat),
                    Progress::Invalid => front(joined) == Front::Invalid(n as nat),
                    Progress::StillIncomplete => front(joined) == Front::Incomplete,
                }
                &&& progress is StillIncomplete ==> final(self)@ == joined
                &&& !(progress is StillIncomplete) ==> {
                    &&& final(self)@ == Seq::<u8>::empty()
                    &&& held == n <= 4
                    &&& final(self).held(n) == joined.take(n)
                }
            }),
    {
        proof {
            use_type_invariant(&*self);
            lemma_front_scalar(self@);
        }
        let ghost joined = self@ + input@;
        let char_width = self.char_width as usize;
        let mut buffer = self.buffer;
        let mut len = self.buffer_len as usize;
        let mut consumed: usize = 0;
        assert(buffer@.take(len as int) =~= joined.take(len as int));
        while len < char_width
            invariant
                0 < len <= char_width <= 4,
                char_width == width(joined[0]),
                consumed <= input@.len(),
                len == old(self)@.len() + consumed,
                joined == old(self)@ + input@,
                buffer@.take(len as int) == joined.take(len as int),
                len >= 2 ==> second_byte_ok(joined[0], joined[1]),
                len >= 3 ==> is_continuation(joined[2]),
                len >= 4 ==> is_continuation(joined[3]),
            decreases char_width - len,
        {
            if consumed == input.len() {
                assert(joined.take(len as int) =~= joined);
                *self = IncompleteChar { buffer, buffer_len: len as u8, char_width: char_width as u8 };
                return (consumed, Progress::StillIncomplete, len);
            }
            let byte = input[consumed];
            assert(joined[len as int] == byte);
            assert(buffer@[0] == joined.take(len as int)[0]);
            let fits = if len == 1 {
                valid_second_byte(buffer[0], byte)
            } else {
                is_continuation_byte(byte)
            };
            if !fits {
                assert(buffer@.take(0) =~= Seq::<u8>::empty());
                *self = IncompleteChar { buffer, buffer_len: 0, char_width: char_width as u8 };
                return (consumed, Progress::Invalid, len);
            }
            buffer[len] = byte;
            len += 1;
            consumed += 1;
            assert(buffer@.take(len as int) =~= joined.take(len as int));
        }
        assert(buffer@.take(0) =~= Seq::<u8>::empty());
        *self = IncompleteChar { buffer, buffer_len: 0, char_width: char_width as u8 };
        (consumed, Progress::Completed, len)
    }

    /// Continues the sequence with the bytes of `input`.
    ///
    /// Bytes are taken from the front of `input` until the sequence is complete, a byte
    /// does not fit, or the input runs out. A byte that does not fit is left in the input:
    /// it may start the next sequence. Once the sequence is decided, nothing is left
    /// waiting, and this may not be called again.
    pub fn try_complete<'char, 'input>(&'char mut self, input: &'input [u8]) -> (r:
        TryCompleteResult<'char, 'input>)
        requires
            old(self)@.len() > 0,
        ensures
            r@ == complete(old(self)@, input@),
            final(self)@ == (if r is StillIncomplete {
                old(self)@ + input@
            } else {
                Seq::<u8>::empty()
            }),
    {
        let ghost joined = self@ + input@;
        let (consumed, progress, held) = self.try_complete_offsets(input);
        let rest = vstd::slice::slice_subrange(input, consumed, input.len());
        assert(rest@ =~= joined.skip(attempt_len(joined) as int));
        match progress {
            Progress::Completed => {
                proof {
                    lemma_scalar_text(joined);
                }
                TryCompleteResult::Completed(text_of(self.held_bytes(held)), rest)
            },
            Progress::Invalid => {
                TryCompleteResult::Error(InvalidSequence(self.held_bytes(held)), rest)
            },
            Progress::StillIncomplete => TryCompleteResult::StillIncomplete,
        }
    }
}

} // verus!
