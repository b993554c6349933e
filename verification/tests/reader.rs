use utf8::{BufReadDecoder, Step, REPLACEMENT_CHARACTER};

/// Reads `data` through a buffer that shows at most `capacity` bytes at a time. Returns
/// the chunks, an error written as its bytes in brackets, and the lossy text.
fn read_all(data: &[u8], capacity: usize) -> (Vec<String>, String) {
    let mut decoder = BufReadDecoder::new();
    let mut lossy_decoder = BufReadDecoder::new();
    let mut position = 0;
    let mut chunks = Vec::new();
    let mut text = String::new();
    loop {
        let consumed = decoder.take_bytes_consumed();
        assert_eq!(decoder.bytes_consumed(), 0);
        position += consumed;
        let end = std::cmp::min(position + capacity, data.len());
        let buf = &data[position..end];
        let step = match lossy_decoder.next_lossy(buf) {
            Step::Eof => None,
            Step::NeedMore => Some(None),
            Step::Chunk(text) => Some(Some(text.to_string())),
        };
        match decoder.next(buf) {
            Step::Eof => {
                assert_eq!(step, None);
                break;
            }
            Step::NeedMore => assert_eq!(step, Some(None)),
            Step::Chunk(Ok(chunk)) => {
                assert_eq!(step, Some(Some(chunk.to_string())));
                chunks.push(chunk.to_string());
                text.push_str(chunk);
            }
            Step::Chunk(Err(error)) => {
                assert_eq!(step, Some(Some(REPLACEMENT_CHARACTER.to_string())));
                chunks.push(format!("{:X?}", error.invalid_sequence));
                text.push_str(REPLACEMENT_CHARACTER);
            }
        }
        assert_eq!(decoder.bytes_consumed(), lossy_decoder.bytes_consumed());
        assert!(decoder.bytes_consumed() <= buf.len());
    }
    assert_eq!(position, data.len());
    (chunks, text)
}

#[test]
fn reading_well_formed_text() {
    assert_eq!(read_all(b"", 8).0, Vec::<String>::new());
    assert_eq!(read_all(b"hello", 8).0, vec!["hello"]);
    assert_eq!(read_all(b"hello", 2).0, vec!["he", "ll", "o"]);
    assert_eq!(read_all("aé€\u{10000}".as_bytes(), 64).0, vec!["aé€\u{10000}"]);
}

#[test]
fn reading_splits_at_errors() {
    assert_eq!(
        read_all(b"Hello\xC2 There\xFF ", 64).0,
        vec!["Hello", "[C2]", " There", "[FF]", " "]
    );
    assert_eq!(read_all(b"\xE6\x83 Goodbye", 64).0, vec!["[E6, 83]", " Goodbye"]);
    assert_eq!(read_all(b"\xF1\x80\x80baz", 64).0, vec!["[F1, 80, 80]", "baz"]);
    assert_eq!(read_all(b"\xED\xA0\x80", 64).0, vec!["[ED]", "[A0]", "[80]"]);
}

#[test]
fn reading_a_code_point_that_the_buffer_cuts() {
    assert_eq!(read_all("aé".as_bytes(), 2).0, vec!["a", "é"]);
    assert_eq!(read_all("\u{10000}".as_bytes(), 1).0, vec!["\u{10000}"]);
    assert_eq!(read_all("ab\u{10000}cd".as_bytes(), 3).0, vec!["ab", "\u{10000}", "cd"]);
    assert_eq!(read_all(b"\xE6\x83 Goodbye", 1).1, "\u{FFFD} Goodbye");
    assert_eq!(read_all(b"\xE6\x83 G", 2).0, vec!["[E6, 83]", " G"]);
}

#[test]
fn reading_a_stream_that_ends_inside_a_sequence() {
    assert_eq!(read_all(b"\xC2", 8).0, vec!["[C2]"]);
    assert_eq!(read_all(b"ab\xF0\x90\x80", 8).0, vec!["ab", "[F0, 90, 80]"]);
    assert_eq!(read_all(b"ab\xF0\x90\x80", 1).0, vec!["a", "b", "[F0, 90, 80]"]);
}

#[test]
fn the_steps_of_one_read() {
    let mut decoder = BufReadDecoder::new();
    assert_eq!(decoder.bytes_consumed(), 0);
    assert!(matches!(decoder.next(b"ab\xC3"), Step::Chunk(Ok("ab"))));
    assert_eq!(decoder.take_bytes_consumed(), 2);
    assert!(matches!(decoder.next(b"\xC3"), Step::NeedMore));
    assert_eq!(decoder.take_bytes_consumed(), 1);
    assert_eq!(decoder.take_bytes_consumed(), 0);
    assert!(matches!(decoder.next(b"\xA9cd"), Step::Chunk(Ok("é"))));
    assert_eq!(decoder.take_bytes_consumed(), 1);
    assert!(matches!(decoder.next(b"cd"), Step::Chunk(Ok("cd"))));
    assert_eq!(decoder.take_bytes_consumed(), 2);
    assert!(matches!(decoder.next(b""), Step::Eof));
    assert_eq!(decoder.take_bytes_consumed(), 0);
    assert!(matches!(decoder.next(b""), Step::Eof));
}

#[test]
fn reading_gives_the_lossy_text_whatever_the_buffer_size() {
    let inputs: [(&[u8], &str); 13] = [
        (b"hello", "hello"),
        (b"\xe0\xb8\xa8\xe0\xb9\x84\xe0\xb8\x97\xe0\xb8\xa2\xe4\xb8\xad\xe5\x8d\x8e", "ศไทย中华"),
        (b"Vi\xe1\xbb\x87t Nam", "Việt Nam"),
        (b"Hello\xC2 There\xFF ", "Hello\u{FFFD} There\u{FFFD} "),
        (b"Hello\xC0\x80 There", "Hello\u{FFFD}\u{FFFD} There"),
        (b"\xE6\x83 Goodbye", "\u{FFFD} Goodbye"),
        (b"\xF5foo\xF5\x80bar", "\u{FFFD}foo\u{FFFD}\u{FFFD}bar"),
        (b"\xF5foo\xF5\xC2", "\u{FFFD}foo\u{FFFD}\u{FFFD}"),
        (b"\xF1foo\xF1\x80bar\xF1\x80\x80baz", "\u{FFFD}foo\u{FFFD}bar\u{FFFD}baz"),
        (b"\xF4foo\xF4\x80bar\xF4\xBFbaz", "\u{FFFD}foo\u{FFFD}bar\u{FFFD}\u{FFFD}baz"),
        (
            b"\xF0\x80\x80\x80foo\xF0\x90\x80\x80bar",
            "\u{FFFD}\u{FFFD}\u{FFFD}\u{FFFD}foo\u{10000}bar",
        ),
        (b"\xF0\x90\x80foo", "\u{FFFD}foo"),
        (
            b"\xED\xA0\x80foo\xED\xBF\xBFbar",
            "\u{FFFD}\u{FFFD}\u{FFFD}foo\u{FFFD}\u{FFFD}\u{FFFD}bar",
        ),
    ];
    for (input, expected) in inputs {
        for capacity in 1..=input.len() + 1 {
            assert_eq!(read_all(input, capacity).1, expected);
        }
    }
}
