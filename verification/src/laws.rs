//! What holds of the model: how it relates to well-formed UTF-8, and that decoding does not
//! depend on where a stream is cut into chunks.
use crate::classify::{
    is_continuation, second_byte_ok, second_byte_ok_for_3, second_byte_ok_for_4, width,
};
use crate::model::{
    attempt_len, chunked_text, concat, decoded, end_text, feed_pieces, front, joined, lossy,
    pending, piece_texts, read_consumed, read_pending, read_step, replacement, resumable, scan,
    scan_pieces, step_text, valid_up_to, Front, Piece, Scan,
};
use vstd::prelude::*;
use vstd::utf8::{
    codepoint_width_1, codepoint_width_2, codepoint_width_3, codepoint_width_4,
    decode_first_scalar, decode_utf8, encode_utf8, length_of_first_scalar,
    not_overlong_encoding, not_surrogate, pop_first_scalar, valid_first_scalar, valid_utf8,
};

verus! {

proof fn lemma_scalar_of_width_1(b0: u8)
    by (bit_vector)
    requires
        b0 <= 0x7F,
    ensures
        not_surrogate(codepoint_width_1(b0)),
{
}

proof fn lemma_scalar_of_width_2(b0: u8, b1: u8)
    by (bit_vector)
    requires
        0xC0 <= b0 <= 0xDF,
        0x80 <= b1 <= 0xBF,
    ensures
        not_overlong_encoding(codepoint_width_2(b0, b1), 2) <==> 0xC2 <= b0,
        not_surrogate(codepoint_width_2(b0, b1)),
{
}

proof fn lemma_scalar_of_width_3(b0: u8, b1: u8, b2: u8)
    by (bit_vector)
    requires
        0xE0 <= b0 <= 0xEF,
        0x80 <= b1 <= 0xBF,
        0x80 <= b2 <= 0xBF,
    ensures
        not_overlong_encoding(codepoint_width_3(b0, b1, b2), 3) && not_surrogate(
            codepoint_width_3(b0, b1, b2),
        ) <==> second_byte_ok_for_3(b0, b1),
{
}

proof fn lemma_scalar_of_width_4(b0: u8, b1: u8, b2: u8, b3: u8)
    by (bit_vector)
    requires
        0xF0 <= b0 <= 0xF7,
        0x80 <= b1 <= 0xBF,
        0x80 <= b2 <= 0xBF,
        0x80 <= b3 <= 0xBF,
    ensures
        not_overlong_encoding(codepoint_width_4(b0, b1, b2, b3), 4) <==> second_byte_ok_for_4(
            b0,
            b1,
        ),
        not_overlong_encoding(codepoint_width_4(b0, b1, b2, b3), 4) ==> not_surrogate(
            codepoint_width_4(b0, b1, b2, b3),
        ),
{
}

/// The front of `s` is a scalar exactly when `s` begins with a well-formed encoding of one
/// scalar value, and the two agree on its width.
pub proof fn lemma_front_scalar(s: Seq<u8>)
    requires
        s.len() > 0,
    ensures
        front(s) is Scalar <==> valid_first_scalar(s),
        front(s) is Scalar ==> front(s) == Front::Scalar(length_of_first_scalar(s) as nat),
        0 < attempt_len(s) <= s.len(),
        attempt_len(s) <= 4,
{
    let b0 = s[0];
    if b0 <= 0x7F {
        lemma_scalar_of_width_1(b0);
    } else if 0xC0 <= b0 <= 0xDF {
        if s.len() >= 2 && is_continuation(s[1]) {
            lemma_scalar_of_width_2(b0, s[1]);
        }
    } else if 0xE0 <= b0 <= 0xEF {
        if s.len() >= 3 && is_continuation(s[1]) && is_continuation(s[2]) {
            lemma_scalar_of_width_3(b0, s[1], s[2]);
        }
    } else if 0xF0 <= b0 <= 0xF7 {
        if s.len() >= 4 && is_continuation(s[1]) && is_continuation(s[2]) && is_continuation(
            s[3],
        ) {
            lemma_scalar_of_width_4(b0, s[1], s[2], s[3]);
        }
    }
}

/// Bytes that follow a scalar or an ill-formed run do not change what it is: the front of
/// a sequence is decided by the bytes of the attempt and the one byte that ended it.
pub proof fn lemma_front_append(a: Seq<u8>, b: Seq<u8>)
    requires
        a.len() > 0,
        front(a) != Front::Incomplete,
    ensures
        front(a + b) == front(a),
        attempt_len(a + b) == attempt_len(a),
        front(a) is Scalar ==> decode_first_scalar(a + b) == decode_first_scalar(a),
        (a + b).skip(attempt_len(a) as int) == a.skip(attempt_len(a) as int) + b,
{
    let ab = a + b;
    assert(forall|i: int| 0 <= i < a.len() ==> ab[i] == a[i]);
    lemma_front_scalar(a);
    assert(ab.skip(attempt_len(a) as int) =~= a.skip(attempt_len(a) as int) + b);
}

/// The bytes of a scalar at the front of `s` are well-formed UTF-8 by themselves, and
/// their text is the one character that they encode.
pub proof fn lemma_scalar_text(s: Seq<u8>)
    requires
        s.len() > 0,
        front(s) is Scalar,
    ensures
        valid_utf8(s.take(attempt_len(s) as int)),
        decode_utf8(s.take(attempt_len(s) as int)) == seq![decode_first_scalar(s) as char],
{
    lemma_front_scalar(s);
    let w = attempt_len(s) as int;
    let head = s.take(w);
    assert(forall|i: int| 0 <= i < w ==> head[i] == s[i]);
    lemma_front_scalar(head);
    assert(pop_first_scalar(head) =~= Seq::<u8>::empty());
    assert(valid_utf8(pop_first_scalar(head)));
    assert(decode_utf8(pop_first_scalar(head)) =~= Seq::<char>::empty());
    assert(decode_utf8(head) =~= seq![decode_first_scalar(head) as char]);
}

/// One character takes at most four bytes.
pub proof fn lemma_one_char(c: char)
    ensures
        0 < encode_utf8(seq![c]).len() <= 4,
{
    reveal_with_fuel(encode_utf8, 2);
    assert(seq![c].drop_first() =~= Seq::<char>::empty());
}

/// The run that `valid_up_to` measures lies within `s`, is well-formed UTF-8, and no
/// scalar follows it.
pub proof fn lemma_valid_up_to(s: Seq<u8>)
    ensures
        valid_up_to(s) <= s.len(),
        valid_utf8(s.take(valid_up_to(s) as int)),
        valid_up_to(s) < s.len() ==> !(front(s.skip(valid_up_to(s) as int)) is Scalar),
    decreases s.len(),
{
    if s.len() > 0 {
        lemma_front_scalar(s);
        if let Front::Scalar(w) = front(s) {
            let rest = s.skip(w as int);
            lemma_valid_up_to(rest);
            let k = valid_up_to(s);
            let head = s.take(k as int);
            assert(forall|i: int| 0 <= i < k ==> head[i] == s[i]);
            lemma_front_scalar(head);
            assert(front(head) == Front::Scalar(w));
            assert(pop_first_scalar(head) =~= rest.take(valid_up_to(rest) as int));
            assert(rest.skip(valid_up_to(rest) as int) =~= s.skip(k as int));
        } else {
            assert(s.skip(0) =~= s);
        }
    }
}

/// A sequence is well-formed UTF-8 exactly when its well-formed run covers all of it.
pub proof fn lemma_valid_utf8_iff(s: Seq<u8>)
    ensures
        valid_utf8(s) <==> valid_up_to(s) == s.len(),
    decreases s.len(),
{
    lemma_valid_up_to(s);
    assert(s.take(s.len() as int) =~= s);
    if s.len() > 0 && valid_utf8(s) {
        lemma_front_scalar(s);
        let w = length_of_first_scalar(s);
        assert(pop_first_scalar(s) =~= s.skip(w));
        lemma_valid_utf8_iff(s.skip(w));
    }
}

/// The well-formed run only grows when bytes are added at the end.
pub proof fn lemma_valid_up_to_append(a: Seq<u8>, b: Seq<u8>)
    ensures
        valid_up_to(a) <= valid_up_to(a + b),
    decreases a.len(),
{
    if a.len() > 0 {
        if let Front::Scalar(w) = front(a) {
            lemma_front_append(a, b);
            lemma_valid_up_to_append(a.skip(w as int), b);
        }
    }
}

/// `valid_up_to` is the length of the longest prefix that is well-formed UTF-8.
pub proof fn lemma_valid_up_to_is_longest(s: Seq<u8>, k: int)
    requires
        0 <= k <= s.len(),
        valid_utf8(s.take(k)),
    ensures
        k <= valid_up_to(s),
{
    lemma_valid_utf8_iff(s.take(k));
    lemma_valid_up_to_append(s.take(k), s.skip(k));
    assert(s.take(k) + s.skip(k) =~= s);
}

/// Well-formed input decodes to its characters, with no replacement and nothing held over.
pub proof fn lemma_decoded_valid(s: Seq<u8>)
    requires
        valid_utf8(s),
    ensures
        decoded(s) == decode_utf8(s),
        pending(s) == Seq::<u8>::empty(),
    decreases s.len(),
{
    if s.len() > 0 {
        lemma_front_scalar(s);
        let w = length_of_first_scalar(s);
        assert(pop_first_scalar(s) =~= s.skip(w));
        lemma_decoded_valid(s.skip(w));
    }
}

/// Decoding goes through the well-formed run character by character and then carries on
/// with what follows it.
pub proof fn lemma_decoded_split(s: Seq<u8>)
    ensures
        decoded(s) == decode_utf8(s.take(valid_up_to(s) as int)) + decoded(
            s.skip(valid_up_to(s) as int),
        ),
        pending(s) == pending(s.skip(valid_up_to(s) as int)),
    decreases s.len(),
{
    lemma_valid_up_to(s);
    let k = valid_up_to(s);
    if k == 0 {
        assert(s.skip(0) =~= s);
        assert(s.take(0) =~= Seq::<u8>::empty());
    } else {
        lemma_front_scalar(s);
        let w = attempt_len(s);
        let rest = s.skip(w as int);
        lemma_decoded_split(rest);
        let head = s.take(k as int);
        assert(forall|i: int| 0 <= i < k ==> head[i] == s[i]);
        lemma_front_scalar(head);
        assert(pop_first_scalar(head) =~= rest.take(valid_up_to(rest) as int));
        assert(rest.skip(valid_up_to(rest) as int) =~= s.skip(k as int));
        assert(decode_first_scalar(head) == decode_first_scalar(s));
    }
}

/// Decoding can stop anywhere and be resumed: going through `a + b` gives what going
/// through `a` gives, followed by what going through the bytes that `a` left pending and
/// then `b` gives.
pub proof fn lemma_resume(a: Seq<u8>, b: Seq<u8>)
    ensures
        decoded(a + b) == decoded(a) + decoded(pending(a) + b),
        pending(a + b) == pending(pending(a) + b),
    decreases a.len(),
{
    if a.len() == 0 {
        assert(a + b =~= b);
        assert(pending(a) + b =~= b);
    } else {
        match front(a) {
            Front::Scalar(w) => {
                lemma_front_append(a, b);
                lemma_resume(a.skip(w as int), b);
            },
            Front::Invalid(n) => {
                lemma_front_append(a, b);
                lemma_resume(a.skip(n as int), b);
            },
            Front::Incomplete => {},
        }
    }
}

/// Putting texts one after the other goes along with putting their sequences one after
/// the other.
pub proof fn lemma_concat_append(a: Seq<Seq<char>>, b: Seq<Seq<char>>)
    ensures
        concat(a + b) == concat(a) + concat(b),
    decreases a.len(),
{
    if a.len() == 0 {
        assert(a + b =~= b);
    } else {
        assert((a + b).drop_first() =~= a.drop_first() + b);
        lemma_concat_append(a.drop_first(), b);
        assert(concat(a + b) =~= concat(a) + concat(b));
    }
}

/// One text by itself, and two texts, put one after the other.
pub proof fn lemma_concat_small(a: Seq<char>, b: Seq<char>)
    ensures
        concat(seq![a]) == a,
        concat(seq![a, b]) == a + b,
{
    reveal_with_fuel(concat, 3);
    assert(seq![a].drop_first() =~= Seq::<Seq<char>>::empty());
    assert(seq![a, b].drop_first() =~= seq![b]);
    assert(concat(seq![a]) =~= a);
    assert(concat(seq![a, b]) =~= a + b);
}

/// The pieces of a scan, read one after the other, are the decoded text of the chunk.
pub proof fn lemma_scan_pieces_text(s: Seq<u8>)
    ensures
        concat(piece_texts(scan_pieces(s))) == decoded(s),
    decreases s.len(),
{
    lemma_valid_up_to(s);
    lemma_decoded_split(s);
    let k = valid_up_to(s) as int;
    let text = decode_utf8(s.take(k));
    let tail = s.skip(k);
    let one = seq![text];
    lemma_concat_small(text, seq![replacement()]);
    if k >= s.len() {
        assert(piece_texts(scan_pieces(s)) =~= one);
        assert(decoded(tail) =~= Seq::<char>::empty());
    } else {
        lemma_front_scalar(tail);
        match front(tail) {
            Front::Invalid(n) => {
                let rest = tail.skip(n as int);
                lemma_scan_pieces_text(rest);
                let two = seq![text, seq![replacement()]];
                assert(piece_texts(scan_pieces(s)) =~= two + piece_texts(scan_pieces(rest)));
                lemma_concat_append(two, piece_texts(scan_pieces(rest)));
            },
            _ => {
                assert(piece_texts(scan_pieces(s)) =~= one);
            },
        }
    }
}

/// The pieces that a decoder gives for a chunk, read one after the other, are the decoded
/// text of the bytes that it held followed by the chunk.
pub proof fn lemma_feed_pieces_text(p: Seq<u8>, chunk: Seq<u8>)
    requires
        resumable(p),
    ensures
        concat(piece_texts(feed_pieces(p, chunk))) == decoded(p + chunk),
{
    if p.len() == 0 {
        assert(p + chunk =~= chunk);
        lemma_scan_pieces_text(chunk);
    } else {
        let j = p + chunk;
        lemma_front_scalar(j);
        match front(j) {
            Front::Scalar(w) => {
                let rest = j.skip(w as int);
                lemma_scan_pieces_text(rest);
                let one = seq![seq![decode_first_scalar(j) as char]];
                assert(piece_texts(feed_pieces(p, chunk)) =~= one + piece_texts(
                    scan_pieces(rest),
                ));
                lemma_concat_append(one, piece_texts(scan_pieces(rest)));
                lemma_concat_small(one[0], one[0]);
            },
            Front::Invalid(n) => {
                let rest = j.skip(n as int);
                lemma_scan_pieces_text(rest);
                let one = seq![seq![replacement()]];
                assert(piece_texts(feed_pieces(p, chunk)) =~= one + piece_texts(
                    scan_pieces(rest),
                ));
                lemma_concat_append(one, piece_texts(scan_pieces(rest)));
                lemma_concat_small(one[0], one[0]);
            },
            Front::Incomplete => {
                assert(piece_texts(feed_pieces(p, chunk)) =~= Seq::<Seq<char>>::empty());
            },
        }
    }
}

/// What is left pending can be held over, and going through it again changes nothing.
pub proof fn lemma_pending_resumable(s: Seq<u8>)
    ensures
        resumable(pending(s)),
        pending(s).len() <= 3,
        decoded(pending(s)) == Seq::<char>::empty(),
        pending(pending(s)) == pending(s),
    decreases s.len(),
{
    if s.len() > 0 {
        lemma_front_scalar(s);
        match front(s) {
            Front::Scalar(w) => lemma_pending_resumable(s.skip(w as int)),
            Front::Invalid(n) => lemma_pending_resumable(s.skip(n as int)),
            Front::Incomplete => {},
        }
    }
}

/// Feeding a stream chunk by chunk, and then ending it, gives the lossy decoding of the
/// bytes that the decoder held followed by all the chunks.
pub proof fn lemma_chunked_text(p: Seq<u8>, chunks: Seq<Seq<u8>>)
    requires
        resumable(p),
    ensures
        chunked_text(p, chunks) == lossy(p + joined(chunks)),
    decreases chunks.len(),
{
    if chunks.len() == 0 {
        assert(p + joined(chunks) =~= p);
        if p.len() > 0 {
            assert(decoded(p) =~= Seq::<char>::empty());
        }
        assert(lossy(p) =~= end_text(p));
    } else {
        let first = chunks[0];
        let rest = chunks.drop_first();
        let held = pending(p + first);
        lemma_feed_pieces_text(p, first);
        lemma_pending_resumable(p + first);
        lemma_chunked_text(held, rest);
        lemma_resume(p + first, joined(rest));
        assert((p + first) + joined(rest) =~= p + joined(chunks));
        assert(chunked_text(p, chunks) =~= lossy(p + joined(chunks)));
    }
}

/// Chunk-boundary independence: however a stream is cut into chunks, feeding the chunks
/// in order and then ending the stream gives the same text as feeding the whole stream as
/// one chunk, namely its lossy decoding.
pub proof fn law_chunk_boundary_independence(chunks: Seq<Seq<u8>>)
    ensures
        chunked_text(Seq::empty(), chunks) == chunked_text(Seq::empty(), seq![joined(chunks)]),
        chunked_text(Seq::empty(), chunks) == lossy(joined(chunks)),
{
    let whole = seq![joined(chunks)];
    lemma_chunked_text(Seq::empty(), chunks);
    lemma_chunked_text(Seq::empty(), whole);
    assert(joined(whole) =~= joined(chunks)) by {
        assert(whole.drop_first() =~= Seq::<Seq<u8>>::empty());
        assert(joined(whole.drop_first()) =~= Seq::<u8>::empty());
    }
    assert(Seq::<u8>::empty() + joined(chunks) =~= joined(chunks));
}

proof fn lemma_ascii_scalar(b: u8)
    by (bit_vector)
    requires
        b <= 0x7F,
    ensures
        codepoint_width_1(b) == b as u32,
{
}

/// Input of ASCII bytes alone is well formed, and each byte is its own character.
pub proof fn lemma_ascii_text(s: Seq<u8>)
    requires
        forall|i: int| 0 <= i < s.len() ==> s[i] < 0x80,
    ensures
        valid_up_to(s) == s.len(),
        valid_utf8(s),
        decode_utf8(s) == Seq::new(s.len(), |i: int| s[i] as char),
    decreases s.len(),
{
    lemma_valid_utf8_iff(s);
    if s.len() > 0 {
        let rest = s.skip(1);
        lemma_ascii_text(rest);
        lemma_valid_utf8_iff(rest);
        lemma_front_scalar(s);
        lemma_ascii_scalar(s[0]);
        assert(pop_first_scalar(s) =~= rest);
        assert(decode_utf8(s) =~= Seq::new(s.len(), |i: int| s[i] as char));
    } else {
        assert(decode_utf8(s) =~= Seq::new(s.len(), |i: int| s[i] as char));
    }
}

/// The ASCII fast path: input that holds only bytes below `0x80` decodes as one slice of
/// text that is the whole input, with no error and nothing held over.
pub proof fn law_ascii_fast_path(s: Seq<u8>)
    requires
        forall|i: int| 0 <= i < s.len() ==> s[i] < 0x80,
    ensures
        scan(s) == Scan::Valid(Seq::new(s.len(), |i: int| s[i] as char)),
        feed_pieces(Seq::empty(), s) == seq![
            Piece::Text(Seq::new(s.len(), |i: int| s[i] as char)),
        ],
        pending(s) == Seq::<u8>::empty(),
        lossy(s) == Seq::new(s.len(), |i: int| s[i] as char),
{
    lemma_ascii_text(s);
    lemma_decoded_valid(s);
    assert(s.take(s.len() as int) =~= s);
    assert(lossy(s) =~= decoded(s));
}

/// Overlong forms are rejected: `C0` and `C1`, which could only start a two-byte form of
/// an ASCII character, `E0` followed by `80..=9F`, and `F0` followed by `80..=8F` never
/// start a scalar. The lead byte is an ill-formed run of one byte, and decoding resumes
/// at the byte after it.
pub proof fn law_overlong_rejected(s: Seq<u8>)
    requires
        s.len() >= 2,
        s[0] == 0xC0 || s[0] == 0xC1 || (s[0] == 0xE0 && 0x80 <= s[1] <= 0x9F) || (s[0] == 0xF0
            && 0x80 <= s[1] <= 0x8F),
    ensures
        front(s) == Front::Invalid(1),
        scan(s) == Scan::Error(Seq::empty(), s.take(1), s.skip(1)),
        !valid_utf8(s),
{
    lemma_rejected_lead(s);
}

/// Surrogates are rejected: `ED` followed by `A0..=BF`, which would encode U+D800 to
/// U+DFFF, never starts a scalar. The lead byte is an ill-formed run of one byte.
pub proof fn law_surrogates_rejected(s: Seq<u8>)
    requires
        s.len() >= 2,
        s[0] == 0xED,
        0xA0 <= s[1] <= 0xBF,
    ensures
        front(s) == Front::Invalid(1),
        scan(s) == Scan::Error(Seq::empty(), s.take(1), s.skip(1)),
        !valid_utf8(s),
{
    lemma_rejected_lead(s);
}

/// The range is capped at U+10FFFF: `F4` followed by `90..=BF`, and every lead byte from
/// `F5` on, never start a scalar. The lead byte is an ill-formed run of one byte.
pub proof fn law_beyond_range_rejected(s: Seq<u8>)
    requires
        s.len() >= 2,
        (s[0] == 0xF4 && 0x90 <= s[1] <= 0xBF) || s[0] >= 0xF5,
    ensures
        front(s) == Front::Invalid(1),
        scan(s) == Scan::Error(Seq::empty(), s.take(1), s.skip(1)),
        !valid_utf8(s),
{
    lemma_rejected_lead(s);
}

/// A lead byte that the byte after it rules out is an ill-formed run of one byte.
proof fn lemma_rejected_lead(s: Seq<u8>)
    requires
        s.len() >= 2,
        width(s[0]) == 0 || (width(s[0]) > 1 && !second_byte_ok(s[0], s[1])),
    ensures
        front(s) == Front::Invalid(1),
        scan(s) == Scan::Error(Seq::empty(), s.take(1), s.skip(1)),
        !valid_utf8(s),
{
    lemma_valid_utf8_iff(s);
    assert(s.skip(0) =~= s);
    assert(s.take(0) =~= Seq::<u8>::empty());
    assert(decode_utf8(s.take(0)) =~= Seq::<char>::empty());
}

/// An ill-formed run is a maximal subpart: it has one to three bytes; unless its first
/// byte can start no sequence, its bytes are the beginning of some well-formed sequence,
/// and the byte after it, which is there, is the first one that breaks the pattern. That
/// byte is not part of the run: decoding resumes with it.
pub proof fn law_maximal_subpart(s: Seq<u8>)
    requires
        s.len() > 0,
        front(s) is Invalid,
    ensures
        front(s) == Front::Invalid(attempt_len(s)),
        1 <= attempt_len(s) <= 3,
        width(s[0]) == 0 ==> attempt_len(s) == 1,
        width(s[0]) > 0 ==> {
            &&& attempt_len(s) < s.len()
            &&& front(s.take(attempt_len(s) as int)) == Front::Incomplete
            &&& front(s.take(attempt_len(s) as int + 1)) == Front::Invalid(attempt_len(s))
        },
{
    lemma_front_scalar(s);
    let n = attempt_len(s) as int;
    if width(s[0]) > 0 {
        let run = s.take(n);
        let more = s.take(n + 1);
        assert(forall|i: int| 0 <= i < n ==> run[i] == s[i]);
        assert(forall|i: int| 0 <= i < n + 1 ==> more[i] == s[i]);
    }
}

/// A step of reading at the end of the stream.
proof fn lemma_read_at_end(p: Seq<u8>)
    requires
        resumable(p),
    ensures
        lossy(p) == step_text(read_step(p, Seq::empty())),
        lossy(Seq::<u8>::empty()) == Seq::<char>::empty(),
{
    assert(lossy(Seq::<u8>::empty()) =~= Seq::<char>::empty());
    assert(lossy(p) =~= step_text(read_step(p, Seq::empty())));
}

/// A step of reading with nothing held, where the buffer starts with text.
proof fn lemma_read_text(b: Seq<u8>, rest: Seq<u8>)
    requires
        valid_up_to(b) > 0,
    ensures
        valid_up_to(b) <= b.len(),
        lossy(b + rest) == decode_utf8(b.take(valid_up_to(b) as int)) + lossy(
            (b + rest).skip(valid_up_to(b) as int),
        ),
{
    let k = valid_up_to(b) as int;
    let s = b + rest;
    lemma_valid_up_to(b);
    lemma_resume(b, rest);
    lemma_decoded_split(b);
    lemma_resume(b.skip(k), rest);
    assert(s.skip(k) =~= b.skip(k) + rest);
    assert(lossy(s) =~= decode_utf8(b.take(k)) + lossy(s.skip(k)));
}

/// A step of reading that finds a scalar or an ill-formed run at the front of what is
/// held and shown.
proof fn lemma_read_front(j: Seq<u8>, rest: Seq<u8>)
    requires
        j.len() > 0,
        front(j) != Front::Incomplete,
    ensures
        front(j) is Scalar ==> lossy(j + rest) == seq![decode_first_scalar(j) as char] + lossy(
            (j + rest).skip(attempt_len(j) as int),
        ),
        front(j) is Invalid ==> lossy(j + rest) == seq![replacement()] + lossy(
            (j + rest).skip(attempt_len(j) as int),
        ),
{
    let s = j + rest;
    let n = attempt_len(j) as int;
    lemma_front_append(j, rest);
    lemma_front_scalar(j);
    if front(j) is Scalar {
        assert(lossy(s) =~= seq![decode_first_scalar(j) as char] + lossy(s.skip(n)));
    } else {
        assert(lossy(s) =~= seq![replacement()] + lossy(s.skip(n)));
    }
}

/// Reading step by step gives the lossy decoding of the stream, whatever part of the
/// stream the buffer shows at each step.
///
/// A reader holds the bytes `p`, the buffer shows `b`, and `rest` is what the stream
/// holds beyond the buffer; an empty buffer means that the stream has ended. The text of
/// the step, followed by the lossy decoding of what the reader then holds and of what the
/// step did not use up, is the lossy decoding of what was there before the step.
pub proof fn law_read_step(p: Seq<u8>, b: Seq<u8>, rest: Seq<u8>)
    requires
        resumable(p),
        b.len() == 0 ==> rest.len() == 0,
    ensures
        read_consumed(p, b) <= b.len(),
        resumable(read_pending(p, b)),
        lossy(p + (b + rest)) == step_text(read_step(p, b)) + lossy(
            read_pending(p, b) + (b + rest).skip(read_consumed(p, b) as int),
        ),
        read_step(p, b) is Eof <==> p.len() == 0 && b.len() == 0,
{
    let s = b + rest;
    let j = p + b;
    let all = p + s;
    let none = Seq::<u8>::empty();
    let c = read_consumed(p, b) as int;
    if b.len() == 0 {
        lemma_read_at_end(p);
        assert(all =~= p);
        assert(none + s.skip(0) =~= none);
        assert(step_text(read_step(p, b)) + lossy(none) =~= step_text(read_step(p, b)));
    } else {
        assert(all =~= j + rest);
        lemma_front_scalar(j);
        if p.len() == 0 && valid_up_to(b) > 0 {
            assert(j =~= b);
            assert(all =~= s);
            lemma_read_text(b, rest);
            assert(none + s.skip(c) =~= s.skip(c));
        } else if front(j) == Front::Incomplete {
            assert(s.skip(b.len() as int) =~= rest);
            assert(read_step(p, b) is NeedMore);
            assert(step_text(read_step(p, b)) + lossy(all) =~= lossy(all));
        } else {
            if p.len() == 0 {
                assert(j =~= b);
                assert(b.skip(0) =~= b);
            } else {
                lemma_front_scalar(p);
                assert(forall|i: int| 0 <= i < p.len() ==> j[i] == p[i]);
            }
            let n = attempt_len(j) as int;
            assert(n >= p.len());
            lemma_read_front(j, rest);
            assert((j + rest).skip(n) =~= s.skip(n - p.len()));
            assert(none + s.skip(c) =~= s.skip(c));
        }
    }
}

} // verus!
