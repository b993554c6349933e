//! Byte classification: the width a lead byte announces, and the checks a byte has to pass
//! at each later position of a sequence. Everything else in this crate is sequencing around
//! these four predicates.
use vstd::prelude::*;

verus! {

/// Number of bytes in the sequence that `lead` starts: 1 for ASCII, 2 to 4 for the lead
/// bytes of multi-byte sequences, and 0 for a byte that can never start a sequence
/// (continuation bytes, `C0` and `C1`, which could only start overlong forms, and `F5..=FF`,
/// which would encode beyond U+10FFFF).
pub open spec fn width(lead: u8) -> nat {
    if lead <= 0x7F {
        1
    } else if 0xC2 <= lead <= 0xDF {
        2
    } else if 0xE0 <= lead <= 0xEF {
        3
    } else if 0xF0 <= lead <= 0xF4 {
        4
    } else {
        0
    }
}

/// A continuation byte has the bit pattern `10xxxxxx`.
pub open spec fn is_continuation(b: u8) -> bool {
    0x80 <= b <= 0xBF
}

/// Range of the second byte of a three-byte sequence. After `E0` the low part of the range
/// is left out (it would be an overlong form), after `ED` the high part (surrogates).
pub open spec fn second_byte_ok_for_3(lead: u8, second: u8) -> bool {
    ||| lead == 0xE0 && 0xA0 <= second <= 0xBF
    ||| 0xE1 <= lead <= 0xEC && 0x80 <= second <= 0xBF
    ||| lead == 0xED && 0x80 <= second <= 0x9F
    ||| 0xEE <= lead <= 0xEF && 0x80 <= second <= 0xBF
}

/// Range of the second byte of a four-byte sequence. After `F0` the low part of the range
/// is left out (overlong), after `F4` the high part (beyond U+10FFFF).
pub open spec fn second_byte_ok_for_4(lead: u8, second: u8) -> bool {
    ||| lead == 0xF0 && 0x90 <= second <= 0xBF
    ||| 0xF1 <= lead <= 0xF3 && 0x80 <= second <= 0xBF
    ||| lead == 0xF4 && 0x80 <= second <= 0x8F
}

/// The check for the byte that follows `lead`, whatever width `lead` announces.
pub open spec fn second_byte_ok(lead: u8, second: u8) -> bool {
    let w = width(lead);
    if w == 2 {
        is_continuation(second)
    } else if w == 3 {
        second_byte_ok_for_3(lead, second)
    } else if w == 4 {
        second_byte_ok_for_4(lead, second)
    } else {
        false
    }
}

/// Width of the sequence that `lead` starts, 0 if it starts none.
pub fn utf8_char_width(lead: u8) -> (w: u8)
    ensures
        w == width(lead),
{
    match lead {
        0x00..=0x7F => 1,
        0xC2..=0xDF => 2,
        0xE0..=0xEF => 3,
        0xF0..=0xF4 => 4,
        _ => 0,
    }
}

/// Whether the top two bits of `b` are `10`.
pub fn is_continuation_byte(b: u8) -> (r: bool)
    ensures
        r == is_continuation(b),
{
    assert((b & 0xC0 == 0x80) == (0x80 <= b && b <= 0xBF)) by (bit_vector);
    b & 0xC0 == 0x80
}

/// Whether `first` and `second` can be the first two bytes of a three-byte sequence.
pub fn valid_three_bytes_sequence_prefix(first: u8, second: u8) -> (r: bool)
    ensures
        r == second_byte_ok_for_3(first, second),
{
    matches!(
        (first, second),
        (0xE0, 0xA0..=0xBF) | (0xE1..=0xEC, 0x80..=0xBF) | (0xED, 0x80..=0x9F) | (
            0xEE..=0xEF,
            0x80..=0xBF,
        )
    )
}

/// Whether `first` and `second` can be the first two bytes of a four-byte sequence.
pub fn valid_four_bytes_sequence_prefix(first: u8, second: u8) -> (r: bool)
    ensures
        r == second_byte_ok_for_4(first, second),
{
    matches!(
        (first, second),
        (0xF0, 0x90..=0xBF) | (0xF1..=0xF3, 0x80..=0xBF) | (0xF4, 0x80..=0x8F)
    )
}

/// The check for the byte after `lead`, by the width that `lead` announces.
pub fn valid_second_byte(lead: u8, second: u8) -> (r: bool)
    ensures
        r == second_byte_ok(lead, second),
{
    match utf8_char_width(lead) {
        2 => is_continuation_byte(second),
        3 => valid_three_bytes_sequence_prefix(lead, second),
        4 => valid_four_bytes_sequence_prefix(lead, second),
        _ => false,
    }
}

} // verus!
