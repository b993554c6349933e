//! Lossy decoding, pushed to a callback: every ill-formed run becomes one U+FFFD.
use crate::incomplete::{IncompleteChar, TryCompleteResult};
use crate::laws::{lemma_decoded_split, lemma_front_scalar, lemma_valid_up_to};
use crate::model::{
    end_text, feed_pieces, pending, piece_texts, replacement, resumable, scan_pieces,
    valid_up_to,
};
use crate::scan::{decode, DecodeResult};
use vstd::prelude::*;

verus! {

/// The replacement character, U+FFFD. In lossy decoding it stands for each ill-formed run.
pub const REPLACEMENT_CHARACTER: &'static str = "\u{FFFD}";

/// The replacement character as a string slice.
pub fn replacement_str() -> (r: &'static str)
    ensures
        r@ == seq![replacement()],
{
    proof {
        reveal_strlit("\u{FFFD}");
    }
    let r = REPLACEMENT_CHARACTER;
    assert(r@ =~= seq![replacement()]);
    r
}

/// A push-based, lossy decoder for UTF-8.
///
/// Bytes are pushed into the decoder chunk by chunk, and the decoder pushes string slices
/// into a callback: the well-formed text as it stands in the chunk, a code point that a
/// chunk boundary had cut in two, and U+FFFD for each ill-formed run.
///
/// The end of the input has to be signalled with `end`: if the last chunk ended inside a
/// sequence, that is an error, and only `end` reports it. A decoder that is dropped
/// without it says nothing of such a sequence.
pub struct LossyDecoder<F: FnMut(&str)> {
    push_str: F,
    incomplete: Option<IncompleteChar>,
    pushed: Ghost<Seq<Seq<char>>>,
}

impl<F: FnMut(&str)> LossyDecoder<F> {
    /// The callback accepts every string slice, and what is held over from the last
    /// chunk is a sequence that was cut off.
    pub closed spec fn wf(&self) -> bool {
        &&& forall|s: &str| call_requires(self.push_str, (s,))
        &&& self.incomplete matches Some(incomplete) ==> incomplete@.len() > 0
        &&& resumable(self.pending())
    }

    /// The texts that the callback has been called with, in order.
    pub closed spec fn pushed(&self) -> Seq<Seq<char>> {
        self.pushed@
    }

    /// The bytes of a sequence that the last chunk cut off, empty if there is none.
    pub closed spec fn pending(&self) -> Seq<u8> {
        match self.incomplete {
            Some(incomplete) => incomplete@,
            None => Seq::empty(),
        }
    }

    /// Creates a decoder from a callback, which must accept every string slice.
    pub fn new(push_str: F) -> (r: Self)
        requires
            forall|s: &str| call_requires(push_str, (s,)),
        ensures
            r.wf(),
            r.pushed() == Seq::<Seq<char>>::empty(),
            r.pending() == Seq::<u8>::empty(),
    {
        LossyDecoder { push_str: push_str, incomplete: None, pushed: Ghost(Seq::empty()) }
    }

    /// Hands one string slice to the callback.
    fn push(&mut self, s: &str)
        requires
            forall|s: &str| call_requires(old(self).push_str, (s,)),
        ensures
            forall|s: &str| call_requires(final(self).push_str, (s,)),
            final(self).pushed() == old(self).pushed().push(s@),
            final(self).incomplete == old(self).incomplete,
    {
        (self.push_str)(s);
        proof {
            self.pushed@ = self.pushed@.push(s@);
        }
    }

    /// Feeds one chunk of input into the decoder.
    ///
    /// The callback is called once for each piece of the chunk, in order. A sequence that
    /// the previous chunk cut off is continued first; one that this chunk cuts off is
    /// held over for the next.
    pub fn feed(&mut self, input: &[u8])
        requires
            old(self).wf(),
        ensures
            final(self).wf(),
            final(self).pushed() == old(self).pushed() + piece_texts(
                feed_pieces(old(self).pending(), input@),
            ),
            final(self).pending() == pending(old(self).pending() + input@),
    {
        let ghost held = self.pending();
        let ghost before = self.pushed();
        let ghost chunk = input@;
        let mut input = input;
        if let Some(mut incomplete) = self.incomplete.take() {
            proof {
                lemma_front_scalar(held + input@);
            }
            match incomplete.try_complete(input) {
                TryCompleteResult::Completed(s, remaining) => {
                    self.push(s);
                    input = remaining;
                },
                TryCompleteResult::Error(_, remaining) => {
                    self.push(replacement_str());
                    input = remaining;
                },
                TryCompleteResult::StillIncomplete => {
                    self.incomplete = Some(incomplete);
                    assert(self.pushed() =~= before + piece_texts(feed_pieces(held, input@)));
                    return ;
                },
            }
            assert(before + piece_texts(feed_pieces(held, chunk)) =~= self.pushed()
                + piece_texts(scan_pieces(input@)));
        } else {
            assert(held + input@ =~= input@);
            assert(before + piece_texts(feed_pieces(held, chunk)) =~= self.pushed()
                + piece_texts(scan_pieces(input@)));
        }
        let ghost target = before + piece_texts(feed_pieces(held, chunk));
        let ghost left = pending(held + chunk);
        loop
            invariant_except_break
                self.incomplete is None,
                forall|s: &str| call_requires(self.push_str, (s,)),
                target == self.pushed() + piece_texts(scan_pieces(input@)),
                left == pending(input@),
            ensures
                self.wf(),
                target == self.pushed(),
                left == self.pending(),
            decreases input@.len(),
        {
            proof {
                lemma_valid_up_to(input@);
                lemma_decoded_split(input@);
                if valid_up_to(input@) < input@.len() {
                    lemma_front_scalar(input@.skip(valid_up_to(input@) as int));
                }
            }
            let ghost rest_pieces = piece_texts(scan_pieces(input@));
            match decode(input) {
                DecodeResult::Valid(s) => {
                    self.push(s);
                    assert(rest_pieces =~= seq![s@]);
                    assert(pending(input@.skip(input@.len() as int)) =~= Seq::<u8>::empty());
                    break ;
                },
                DecodeResult::Incomplete(s, i) => {
                    self.push(s);
                    self.incomplete = Some(i);
                    assert(rest_pieces =~= seq![s@]);
                    break ;
                },
                DecodeResult::Error(s, _, remaining) => {
                    self.push(s);
                    self.push(replacement_str());
                    assert(rest_pieces =~= seq![s@, seq![replacement()]] + piece_texts(
                        scan_pieces(remaining@),
                    ));
                    input = remaining;
                },
            }
        }
    }

    /// Signals the end of the input: a sequence that was cut off can no longer be
    /// completed, so it is one more ill-formed run.
    pub fn end(&mut self)
        requires
            old(self).wf(),
        ensures
            final(self).wf(),
            final(self).pushed() == old(self).pushed() + (if old(self).pending().len() > 0 {
                seq![end_text(old(self).pending())]
            } else {
                Seq::empty()
            }),
            final(self).pending() == Seq::<u8>::empty(),
    {
        if self.incomplete.is_some() {
            self.incomplete = None;
            self.push(replacement_str());
        }
    }
}

} // verus!
