use ropey::Rope;
use tea::buffer::{char_count, insert_text, line_count, line_text};
use tea::document::{load_from_bytes, save_to_bytes};
use tea::line_ending::{detect_line_ending, has_trailing_newline, LineEnding};
use tea::text::{normalize_line_endings, remove_cr_before_lf};

fn round_trip(input: &[u8]) -> Vec<u8> {
    let (rope, ending, trailing) = load_from_bytes(input);
    save_to_bytes(&rope, ending, trailing)
}

#[test]
fn test_load_and_save_crlf() {
    let (rope, ending, trailing) = load_from_bytes(b"a\r\nb\r\n");
    assert_eq!(ending, LineEnding::Crlf);
    assert!(trailing);
    assert_eq!(rope.len_lines(), 3);
    // Modify rope: append 'c'.
    let mut rope = rope;
    rope.insert(rope.len_chars(), "c");
    let buf = save_to_bytes(&rope, ending, trailing);
    assert_eq!(buf, b"a\r\nb\r\nc\r\n");
}

#[test]
fn test_load_and_save_lf_no_trailing() {
    let (rope, ending, trailing) = load_from_bytes(b"x\ny");
    assert_eq!(ending, LineEnding::Lf);
    assert!(!trailing);
    assert_eq!(rope.len_lines(), 2);
    let buf = save_to_bytes(&rope, ending, trailing);
    assert_eq!(buf, b"x\ny");
}

#[test]
fn detect_empty_input() {
    assert_eq!(detect_line_ending(b""), LineEnding::Lf);
    assert!(!has_trailing_newline(b""));
}

#[test]
fn detect_binary_garbage() {
    let bytes: Vec<u8> = vec![0xff, 0x00, 0xfe, 0x0d, 0x80, 0x0a, 0xc3];
    assert_eq!(detect_line_ending(&bytes), LineEnding::Lf);
    assert!(!has_trailing_newline(&bytes));
    let bytes: Vec<u8> = vec![0xff, 0x0d, 0x0a, 0xfe];
    assert_eq!(detect_line_ending(&bytes), LineEnding::Crlf);
}

#[test]
fn detect_mixed_endings_as_crlf() {
    assert_eq!(detect_line_ending(b"a\nb\r\nc\n"), LineEnding::Crlf);
    assert_eq!(detect_line_ending(b"a\nb\nc\r"), LineEnding::Lf);
    assert_eq!(detect_line_ending(b"\r\n"), LineEnding::Crlf);
}

#[test]
fn trailing_newline_forms() {
    assert!(has_trailing_newline(b"a\r\n"));
    assert!(has_trailing_newline(b"a\n"));
    assert!(has_trailing_newline(b"\n"));
    assert!(!has_trailing_newline(b"a\r"));
    assert!(!has_trailing_newline(b"a"));
}

#[test]
fn normalize_rewrites_pairs_only() {
    let text: Vec<char> = "a\r\nb\rc\n\r\n".chars().collect();
    let expected: Vec<char> = "a\nb\rc\n\n".chars().collect();
    assert_eq!(normalize_line_endings(&text), expected);
    let text: Vec<char> = "x\r\r\ny".chars().collect();
    let expected: Vec<char> = "x\r\ny".chars().collect();
    assert_eq!(normalize_line_endings(&text), expected);
    assert!(normalize_line_endings(&Vec::new()).is_empty());
}

#[test]
fn loaded_text_has_no_crlf() {
    let (rope, _, _) = load_from_bytes(b"one\r\ntwo\r\n\r\nthree");
    let text = rope.to_string();
    assert!(!text.contains("\r\n"));
    assert_eq!(text, "one\ntwo\n\nthree");
}

#[test]
fn line_count_matches_segments() {
    let (rope, _, trailing) = load_from_bytes(b"a\nb\n");
    assert!(trailing);
    assert_eq!(line_count(&rope), 3);
    assert_eq!(rope.len_lines(), 3);
    assert!(line_text(&rope, 2).is_empty());
    let (rope, _, trailing) = load_from_bytes(b"a\r\nbc");
    assert!(!trailing);
    assert_eq!(line_count(&rope), 2);
    assert_eq!(line_text(&rope, 0), vec!['a']);
    assert_eq!(line_text(&rope, 1), vec!['b', 'c']);
    let (rope, _, _) = load_from_bytes(b"");
    assert_eq!(line_count(&rope), 1);
}

#[test]
fn invalid_utf8_is_replaced() {
    let (rope, ending, trailing) = load_from_bytes(b"ok\r\nbad\xff\xfeend\r\n");
    assert_eq!(ending, LineEnding::Crlf);
    assert!(trailing);
    let line: String = line_text(&rope, 1).into_iter().collect();
    assert!(line.contains('\u{FFFD}'));
    assert!(line.starts_with("bad"));
    assert!(line.ends_with("end"));
}

#[test]
fn round_trip_all_forms() {
    let cases: Vec<&[u8]> = vec![
        b"a\r\nb\r\n",
        b"a\r\nb",
        b"x\ny",
        b"x\ny\n",
        b"",
        b"\n",
        b"\r\n",
        b"\n\n",
        b"lone\rcr\n",
        "caf\u{e9}\r\n\u{1F600}\r\n".as_bytes(),
    ];
    for case in cases {
        assert_eq!(round_trip(case), case.to_vec());
    }
}

#[test]
fn empty_buffer_saves_nothing() {
    let rope = Rope::from_str("");
    assert!(save_to_bytes(&rope, LineEnding::Crlf, true).is_empty());
    assert!(save_to_bytes(&rope, LineEnding::Lf, true).is_empty());
    assert!(save_to_bytes(&rope, LineEnding::Lf, false).is_empty());
}

#[test]
fn edit_then_save_uses_style() {
    let (mut rope, ending, trailing) = load_from_bytes(b"a\nb\n");
    rope.insert(rope.len_chars(), "c");
    assert_eq!(save_to_bytes(&rope, ending, trailing), b"a\nb\nc\n");
    assert_eq!(save_to_bytes(&rope, LineEnding::Crlf, false), b"a\r\nb\r\nc");
}

#[test]
fn save_converts_style() {
    let rope = Rope::from_str("p\nq\n");
    assert_eq!(save_to_bytes(&rope, LineEnding::Crlf, true), b"p\r\nq\r\n");
    assert_eq!(save_to_bytes(&rope, LineEnding::Lf, false), b"p\nq\n");
    let rope = Rope::from_str("p\nq");
    assert_eq!(save_to_bytes(&rope, LineEnding::Lf, false), b"p\nq");
    assert_eq!(save_to_bytes(&rope, LineEnding::Crlf, true), b"p\r\nq\r\n");
    let rope = Rope::from_str("\u{e9}\n\u{e8}");
    assert_eq!(save_to_bytes(&rope, LineEnding::Crlf, true), "\u{e9}\r\n\u{e8}\r\n".as_bytes());
}

#[test]
fn carriage_return_runs_before_lf_are_dropped() {
    let text: Vec<char> = "x\r\r\ny\r\rz\r".chars().collect();
    let expected: Vec<char> = "x\ny\r\rz\r".chars().collect();
    assert_eq!(remove_cr_before_lf(&text), expected);
    let (rope, ending, trailing) = load_from_bytes(b"\r\r\n");
    assert_eq!(ending, LineEnding::Crlf);
    assert!(trailing);
    assert_eq!(rope.to_string(), "\n");
    let (rope, _, _) = load_from_bytes(b"a\r\r\r\nb\r\n");
    assert!(!rope.to_string().contains("\r\n"));
    assert_eq!(rope.to_string(), "a\nb\n");
}

#[test]
fn invalid_utf8_keeps_trailing_line() {
    let (rope, _, trailing) = load_from_bytes(b"\xff\n");
    assert!(trailing);
    assert_eq!(line_count(&rope), 2);
    assert!(line_text(&rope, 1).is_empty());
    assert_eq!(line_text(&rope, 0), vec!['\u{FFFD}']);
}

#[test]
fn final_line_feed_kept_without_trailing_flag() {
    let rope = Rope::from_str("\n");
    assert_eq!(save_to_bytes(&rope, LineEnding::Crlf, false), b"\r\n");
    assert_eq!(save_to_bytes(&rope, LineEnding::Crlf, true), b"\r\n");
}

#[test]
fn insert_then_save_appends_text_and_separator() {
    let (mut rope, ending, trailing) = load_from_bytes(b"a\r\nb\r\n");
    assert_eq!(char_count(&rope), 4);
    let end = char_count(&rope);
    insert_text(&mut rope, end, "c\u{e9}");
    assert_eq!(char_count(&rope), 6);
    let expected: Vec<u8> = "a\r\nb\r\nc\u{e9}\r\n".as_bytes().to_vec();
    assert_eq!(save_to_bytes(&rope, ending, trailing), expected);
    insert_text(&mut rope, 0, "z");
    assert_eq!(rope.to_string(), "za\nb\nc\u{e9}");
}
