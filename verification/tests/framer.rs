use pubsub::lines::Lines;

/// Feeds `chunks` to a fresh framer and collects everything it yields,
/// including the final unterminated fragment at end of stream.
fn run_framer(chunks: &[&[u8]]) -> Vec<String> {
    let mut lines = Lines::new();
    let mut out: Vec<String> = Vec::new();
    for chunk in chunks {
        lines.push_chunk(chunk);
        while let Some(line) = lines.next_line() {
            out.push(line.expect("line should be valid UTF-8"));
        }
    }
    if !lines.is_empty() {
        out.push(lines.drain_to_end().expect("fragment should be valid UTF-8"));
    }
    out
}

#[test]
fn chunking_does_not_matter() {
    let whole: &[&[u8]] = &[b"a\nbc\n"];
    let by_line: &[&[u8]] = &[b"a\n", b"bc\n"];
    let ragged: &[&[u8]] = &[b"a", b"\nbc", b"\n"];
    let byte_by_byte: &[&[u8]] = &[b"a", b"\n", b"b", b"c", b"\n"];
    let expected = vec!["a".to_string(), "bc".to_string()];
    assert_eq!(run_framer(whole), expected);
    assert_eq!(run_framer(by_line), expected);
    assert_eq!(run_framer(ragged), expected);
    assert_eq!(run_framer(byte_by_byte), expected);
}

#[test]
fn unterminated_tail_is_one_final_line() {
    assert_eq!(run_framer(&[b"abc"]), vec!["abc".to_string()]);
}

#[test]
fn empty_stream_yields_nothing() {
    assert_eq!(run_framer(&[]), Vec::<String>::new());
    assert_eq!(run_framer(&[b""]), Vec::<String>::new());
}

#[test]
fn terminated_stream_has_no_final_fragment() {
    assert_eq!(run_framer(&[b"one\ntwo\n"]), vec!["one".to_string(), "two".to_string()]);
}

#[test]
fn empty_lines_are_kept() {
    assert_eq!(
        run_framer(&[b"\n\nx\n"]),
        vec!["".to_string(), "".to_string(), "x".to_string()]
    );
}

#[test]
fn terminator_split_across_chunks() {
    let mut lines = Lines::new();
    lines.push_chunk(b"hel");
    assert!(lines.next_line().is_none());
    lines.push_chunk(b"lo\nwo");
    assert_eq!(lines.next_line().unwrap().unwrap(), "hello");
    assert!(lines.next_line().is_none());
    lines.push_chunk(b"rld\n");
    assert_eq!(lines.next_line().unwrap().unwrap(), "world");
    assert!(lines.is_empty());
}

#[test]
fn only_newline_terminates_a_line() {
    assert_eq!(run_framer(&[b"a\r\nb\n"]), vec!["a\r".to_string(), "b".to_string()]);
}

#[test]
fn non_ascii_text_is_decoded() {
    let mut lines = Lines::new();
    lines.push_chunk("héllo\n".as_bytes());
    assert_eq!(lines.next_line().unwrap().unwrap(), "héllo");
}

#[test]
fn multibyte_character_split_across_chunks() {
    let bytes = "é\n".as_bytes();
    let mut lines = Lines::new();
    lines.push_chunk(&bytes[..1]);
    assert!(lines.next_line().is_none());
    lines.push_chunk(&bytes[1..]);
    assert_eq!(lines.next_line().unwrap().unwrap(), "é");
}

#[test]
fn invalid_utf8_line_is_an_error() {
    let mut lines = Lines::new();
    lines.push_chunk(&[0xff, 0xfe, b'\n', b'o', b'k', b'\n']);
    assert!(lines.next_line().unwrap().is_err());
    assert_eq!(lines.next_line().unwrap().unwrap(), "ok");
}

#[test]
fn find_newline_reports_first_terminator() {
    let mut lines = Lines::new();
    assert_eq!(lines.find_newline(), None);
    lines.push_chunk(b"ab\ncd\n");
    assert_eq!(lines.find_newline(), Some(2));
}
