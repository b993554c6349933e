use utf8::{decode, DecodeResult, DecodedPiece, Decoder, TryCompleteResult};

fn incomplete_of(input: &[u8]) -> utf8::IncompleteChar {
    match decode(input) {
        DecodeResult::Incomplete(_, incomplete) => incomplete,
        _ => panic!("a sequence that is cut off was expected"),
    }
}

/// The pieces of a run of chunks, written out: `T` and the text, `C` and the code point,
/// `E` for an error, and `|` after each chunk.
fn trace(chunks: &[&[u8]]) -> String {
    let mut decoder = Decoder::new();
    let mut out = String::new();
    for &chunk in chunks {
        for piece in decoder.feed(chunk) {
            match piece {
                DecodedPiece::InputSlice(text) => out.push_str(&format!("T({})", text)),
                DecodedPiece::CodePoint(code_point) => {
                    out.push_str(&format!("C({})", code_point.as_str()))
                }
                DecodedPiece::Error => out.push('E'),
            }
        }
        out.push('|');
    }
    if let Some(piece) = decoder.end_of_stream() {
        assert!(matches!(piece, DecodedPiece::Error));
        out.push('E');
    }
    assert!(decoder.end_of_stream().is_none());
    out
}

#[test]
fn try_complete_completes_a_code_point() {
    let mut incomplete = incomplete_of(b"\xF0\x90\x80");
    match incomplete.try_complete(b"\x80foo") {
        TryCompleteResult::Completed(text, rest) => {
            assert_eq!(text, "\u{10000}");
            assert_eq!(rest, b"foo");
        }
        _ => panic!("a code point was expected"),
    }
    let mut incomplete = incomplete_of(b"\xC3");
    match incomplete.try_complete(b"\xA9") {
        TryCompleteResult::Completed(text, rest) => {
            assert_eq!(text, "é");
            assert_eq!(rest, b"");
        }
        _ => panic!("a code point was expected"),
    }
    let mut incomplete = incomplete_of(b"\xE2");
    match incomplete.try_complete(b"\x82\xAC\xE2\x82\xAC") {
        TryCompleteResult::Completed(text, rest) => {
            assert_eq!(text, "€");
            assert_eq!(rest, b"\xE2\x82\xAC");
        }
        _ => panic!("a code point was expected"),
    }
}

#[test]
fn try_complete_leaves_the_offending_byte_in_the_input() {
    let mut incomplete = incomplete_of(b"\xE6\x83");
    match incomplete.try_complete(b" Goodbye") {
        TryCompleteResult::Error(invalid, rest) => {
            assert_eq!(invalid.0, b"\xE6\x83");
            assert_eq!(rest, b" Goodbye");
        }
        _ => panic!("an error was expected"),
    }
    let mut incomplete = incomplete_of(b"\xF1");
    match incomplete.try_complete(b"\x80\x80baz") {
        TryCompleteResult::Error(invalid, rest) => {
            assert_eq!(invalid.0, b"\xF1\x80\x80");
            assert_eq!(rest, b"baz");
        }
        _ => panic!("an error was expected"),
    }
    let mut incomplete = incomplete_of(b"\xED");
    match incomplete.try_complete(b"\xA0\x80") {
        TryCompleteResult::Error(invalid, rest) => {
            assert_eq!(invalid.0, b"\xED");
            assert_eq!(rest, b"\xA0\x80");
        }
        _ => panic!("an error was expected"),
    }
    let mut incomplete = incomplete_of(b"\xC2");
    match incomplete.try_complete(b"\xC2\x80") {
        TryCompleteResult::Error(invalid, rest) => {
            assert_eq!(invalid.0, b"\xC2");
            assert_eq!(rest, b"\xC2\x80");
        }
        _ => panic!("an error was expected"),
    }
}

#[test]
fn try_complete_goes_on_waiting() {
    let mut incomplete = incomplete_of(b"\xF0");
    assert!(matches!(incomplete.try_complete(b""), TryCompleteResult::StillIncomplete));
    assert!(matches!(incomplete.try_complete(b"\x90"), TryCompleteResult::StillIncomplete));
    assert!(matches!(incomplete.try_complete(b""), TryCompleteResult::StillIncomplete));
    assert!(matches!(incomplete.try_complete(b"\x80"), TryCompleteResult::StillIncomplete));
    match incomplete.try_complete(b"\x80\x80") {
        TryCompleteResult::Completed(text, rest) => {
            assert_eq!(text, "\u{10000}");
            assert_eq!(rest, b"\x80");
        }
        _ => panic!("a code point was expected"),
    }
}

#[test]
fn pieces_of_one_chunk() {
    assert_eq!(trace(&[b"hello"]), "T(hello)|");
    assert_eq!(trace(&[b""]), "T()|");
    assert_eq!(trace(&[]), "");
    assert_eq!(trace(&[b"Hello\xC2 There\xFF "]), "T(Hello)ET( There)ET( )|");
    assert_eq!(trace(&[b"\xFF"]), "T()ET()|");
    assert_eq!(trace(&[b"ab\xE2\x82"]), "T(ab)|E");
    assert_eq!(trace(&["aé€\u{10000}".as_bytes()]), "T(aé€\u{10000})|");
}

#[test]
fn pieces_across_chunks() {
    assert_eq!(trace(&[b"caf\xC3", b"\xA9!"]), "T(caf)|C(é)T(!)|");
    assert_eq!(trace(&[b"caf\xC3", b"!"]), "T(caf)|ET(!)|");
    assert_eq!(trace(&[b"\xF0\x90\x80", b"\x80foo"]), "T()|C(\u{10000})T(foo)|");
    assert_eq!(trace(&[b"\xF0", b"\x90", b"", b"\x80", b"\x80"]), "T()||||C(\u{10000})T()|");
    assert_eq!(trace(&[b"\xF0", b"\x90", b"\x80"]), "T()|||E");
    assert_eq!(trace(&[b"\xE6\x83", b" Goodbye"]), "T()|ET( Goodbye)|");
    assert_eq!(trace(&[b"\xED", b"\xA0\x80"]), "T()|ET()ET()ET()|");
    assert_eq!(trace(&[b"\xC2", b"\xC2", b"\x80"]), "T()|ET()|C(\u{80})T()|");
}

#[test]
fn a_piece_reads_as_text() {
    let mut decoder = Decoder::new();
    let first = decoder.feed(b"a\xFF\xC3");
    let texts: Vec<&str> = first.iter().map(|piece| piece.as_str()).collect();
    assert_eq!(texts, vec!["a", "\u{FFFD}", ""]);
    let second = decoder.feed(b"\xA9");
    let texts: Vec<&str> = second.iter().map(|piece| piece.as_str()).collect();
    assert_eq!(texts, vec!["é", ""]);
}

#[test]
fn a_decoder_can_be_used_again_after_the_end_of_a_stream() {
    let mut decoder = Decoder::new();
    assert_eq!(decoder.feed(b"\xE2\x82").len(), 1);
    assert!(matches!(decoder.end_of_stream(), Some(DecodedPiece::Error)));
    assert!(decoder.end_of_stream().is_none());
    let pieces = decoder.feed(b"\xAC");
    assert_eq!(pieces.len(), 3);
    assert!(matches!(pieces[0], DecodedPiece::InputSlice("")));
    assert!(matches!(pieces[1], DecodedPiece::Error));
    assert!(matches!(pieces[2], DecodedPiece::InputSlice("")));
}

#[test]
fn nothing_is_left_waiting_once_a_sequence_is_decided() {
    let mut incomplete = incomplete_of(b"\xE2\x82");
    assert!(!incomplete.is_empty());
    assert!(matches!(incomplete.try_complete(b""), TryCompleteResult::StillIncomplete));
    assert!(!incomplete.is_empty());
    assert!(matches!(incomplete.try_complete(b"\xAC"), TryCompleteResult::Completed("€", b"")));
    assert!(incomplete.is_empty());
    let mut incomplete = incomplete_of(b"\xE2\x82");
    assert!(matches!(incomplete.try_complete(b"x"), TryCompleteResult::Error(_, b"x")));
    assert!(incomplete.is_empty());
}
