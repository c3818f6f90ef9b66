use linechunk::boundary::find_last_line_ending;
use linechunk::config::TextEncoding;

#[test]
fn empty_span_has_no_boundary() {
    let (r, _) = find_last_line_ending(b"", &vec!['\n'], TextEncoding::Utf8);
    assert_eq!(r, None);
}

#[test]
fn no_newline_no_boundary() {
    let (r, _) = find_last_line_ending(b"abcdef", &vec!['\n'], TextEncoding::Utf8);
    assert_eq!(r, None);
}

#[test]
fn rightmost_newline_reported() {
    // The offset points just past the rightmost newline.
    let (r, _) = find_last_line_ending(b"ab\ncd\nef", &vec!['\n'], TextEncoding::Utf8);
    assert_eq!(r, Some(6));
}

#[test]
fn crlf_occurrence_end() {
    let (r, _) = find_last_line_ending(b"ab\r\ncd", &vec!['\r', '\n'], TextEncoding::Utf8);
    assert_eq!(r, Some(4));
}

#[test]
fn utf8_multibyte_offset_in_bytes() {
    // "é" is two bytes in UTF-8, so the boundary after the newline is at
    // byte 3.
    let (r, _) = find_last_line_ending("\u{e9}\nx".as_bytes(), &vec!['\n'], TextEncoding::Utf8);
    assert_eq!(r, Some(3));
}

#[test]
fn gbk_trail_byte_is_no_false_match() {
    // 0xB0 0x41 is one GBK double-byte character whose trail byte happens to
    // be the code of 'A'; a raw byte search would find 'A', the decoded
    // search must not.
    let (r, _) = find_last_line_ending(&[0xB0, 0x41], &vec!['A'], TextEncoding::Gbk);
    assert_eq!(r, None);
}

#[test]
fn gbk_offset_measured_by_reencoding() {
    // [0xB0 0xA1] [0x0A] [0xB0 0xA1]: one GBK character, a newline, and the
    // same character again. The boundary follows the newline at byte 3: the
    // GBK length of the first character plus the newline's byte.
    let (r, _) = find_last_line_ending(&[0xB0, 0xA1, 0x0A, 0xB0, 0xA1], &vec!['\n'],
        TextEncoding::Gbk);
    assert_eq!(r, Some(3));
}

#[test]
fn custom_multi_char_ending() {
    let ending: Vec<char> = vec![';', ';'];
    let (r, _) = find_last_line_ending(b"a;;b;;c", &ending, TextEncoding::Utf8);
    assert_eq!(r, Some(6));
}

#[test]
fn malformed_utf8_is_reported_not_fatal() {
    let (r, warned) = find_last_line_ending(&[0xFF, 0x0A, 0xFF], &vec!['\n'],
        TextEncoding::Utf8);
    assert!(warned);
    // The replacement character is one decoded character of three bytes in
    // UTF-8; the boundary just past the newline thus lands at byte 4.
    assert_eq!(r, Some(4));
}
