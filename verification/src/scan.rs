//! Scanning one buffer: its well-formed run, and what follows it.
use crate::classify::{
    is_continuation_byte, utf8_char_width, valid_four_bytes_sequence_prefix,
    valid_second_byte, valid_three_bytes_sequence_prefix,
};
use crate::incomplete::IncompleteChar;
use crate::laws::lemma_valid_up_to;
use crate::model::{front, scan, valid_up_to, Front, Scan};
use crate::text::text_of;
use vstd::prelude::*;

verus! {

/// The bytes of an ill-formed run.
#[derive(Debug, Copy, Clone)]
pub struct InvalidSequence<'a>(pub &'a [u8]);

/// What `decode` found in a buffer.
#[derive(Debug, Copy, Clone)]
pub enum DecodeResult<'a> {
    /// The whole buffer is well formed.
    Valid(&'a str),
    /// The text before an ill-formed run, the run, and the input after it.
    Error(&'a str, InvalidSequence<'a>, &'a [u8]),
    /// The text before a sequence that the end of the buffer cuts off, and that sequence.
    Incomplete(&'a str, IncompleteChar),
}

impl<'a> View for DecodeResult<'a> {
    type V = Scan;

    open spec fn view(&self) -> Scan {
        match *self {
            DecodeResult::Valid(text) => Scan::Valid(text@),
            DecodeResult::Error(text, invalid, rest) => Scan::Error(text@, invalid.0@, rest@),
            DecodeResult::Incomplete(text, incomplete) => Scan::Incomplete(text@, incomplete@),
        }
    }
}

/// Length of the well-formed run at the front of `input`.
///
/// Walks the bytes from left to right. An ASCII byte is stepped over; at any other byte
/// the whole sequence that it announces must be there, each byte passing the check for its
/// position. The walk ends at the first place where that fails.
pub fn valid_prefix_len(input: &[u8]) -> (k: usize)
    ensures
        k == valid_up_to(input@),
{
    let mut i: usize = 0;
    assert(input@.skip(0) =~= input@);
    while i < input.len()
        invariant
            i <= input@.len(),
            valid_up_to(input@) == i + valid_up_to(input@.skip(i as int)),
        ensures
            i <= input@.len(),
            valid_up_to(input@) == i,
        decreases input@.len() - i,
    {
        let ghost tail = input@.skip(i as int);
        let first = input[i];
        let w = utf8_char_width(first) as usize;
        assert(tail[0] == first);
        if w == 0 || input.len() - i < w {
            break ;
        }
        assert(w >= 2 ==> tail[1] == input@[i + 1]);
        assert(w >= 3 ==> tail[2] == input@[i + 2]);
        assert(w >= 4 ==> tail[3] == input@[i + 3]);
        if w >= 2 && !valid_second_byte(first, input[i + 1]) {
            break ;
        }
        if w >= 3 && !is_continuation_byte(input[i + 2]) {
            break ;
        }
        if w >= 4 && !is_continuation_byte(input[i + 3]) {
            break ;
        }
        assert(front(tail) == Front::Scalar(w as nat));
        assert(tail.skip(w as int) =~= input@.skip(i + w));
        i += w;
    }
    i
}

/// Where to resume after the ill-formed run that ends the well-formed run of `input`, or
/// `None` if what stands there is a sequence that the end of `input` cuts off.
///
/// The run consists of the byte at `valid_up_to` and of each following byte that passes
/// the check for its position; the byte that breaks the pattern is where decoding resumes.
pub fn utf8error_resume_from(valid_up_to: usize, input: &[u8]) -> (r: Option<usize>)
    requires
        valid_up_to < input@.len(),
        !(front(input@.skip(valid_up_to as int)) is Scalar),
    ensures
        r == match front(input@.skip(valid_up_to as int)) {
            Front::Invalid(n) => Some((valid_up_to + n) as usize),
            _ => None,
        },
        r matches Some(resume_from) ==> valid_up_to < resume_from <= input@.len(),
{
    let after_valid = vstd::slice::slice_subrange(input, valid_up_to, input.len());
    let first = after_valid[0];
    let char_width = utf8_char_width(first);
    let invalid_sequence_length: usize;
    if char_width == 0 {
        invalid_sequence_length = 1;
    } else if char_width == 2 {
        if after_valid.len() < 2 {
            return None;
        }
        invalid_sequence_length = 1;
    } else if char_width == 3 {
        if after_valid.len() < 2 {
            return None;
        }
        if valid_three_bytes_sequence_prefix(first, after_valid[1]) {
            if after_valid.len() < 3 {
                return None;
            }
            invalid_sequence_length = 2;
        } else {
            invalid_sequence_length = 1;
        }
    } else {
        if after_valid.len() < 2 {
            return None;
        }
        if valid_four_bytes_sequence_prefix(first, after_valid[1]) {
            if after_valid.len() < 3 {
                return None;
            }
            if is_continuation_byte(after_valid[2]) {
                if after_valid.len() < 4 {
                    return None;
                }
                invalid_sequence_length = 3;
            } else {
                invalid_sequence_length = 2;
            }
        } else {
            invalid_sequence_length = 1;
        }
    }
    Some(valid_up_to + invalid_sequence_length)
}

/// Scans one buffer.
///
/// The result holds the text of the longest well-formed run at the front of `input`,
/// borrowed from `input`, and what stopped the run: nothing (the whole of `input` is
/// text), an ill-formed run, or a sequence that the end of `input` cuts off.
pub fn decode<'a>(input: &'a [u8]) -> (r: DecodeResult<'a>)
    ensures
        r@ == scan(input@),
{
    let valid_up_to = valid_prefix_len(input);
    proof {
        lemma_valid_up_to(input@);
    }
    let (valid, after_valid) = input.split_at(valid_up_to);
    assert(valid@ =~= input@.take(valid_up_to as int));
    assert(after_valid@ =~= input@.skip(valid_up_to as int));
    let valid = text_of(valid);
    if valid_up_to == input.len() {
        return DecodeResult::Valid(valid);
    }
    match utf8error_resume_from(valid_up_to, input) {
        Some(resume_from) => {
            let invalid_sequence_length = resume_from - valid_up_to;
            let (invalid, rest) = after_valid.split_at(invalid_sequence_length);
            assert(invalid@ =~= after_valid@.take(invalid_sequence_length as int));
            assert(rest@ =~= after_valid@.skip(invalid_sequence_length as int));
            DecodeResult::Error(valid, InvalidSequence(invalid), rest)
        },
        None => {
            DecodeResult::Incomplete(valid, IncompleteChar::new(after_valid))
        },
    }
}

} // verus!
