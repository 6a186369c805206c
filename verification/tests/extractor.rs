use json_fanout::errors::ParseError;
use json_fanout::scan::{copy_whitespace, drop_whitespace, parse_token, read_array, read_doc, read_num, read_string, ByteCursor};
use json_fanout::stream::{parse_array_from_iter, StreamDriver};

fn docs_of(input: &[u8], array: bool) -> (Vec<String>, Option<ParseError>) {
    let r = parse_array_from_iter(input.to_vec(), array);
    (r.documents, r.error)
}

#[test]
fn wrapped_array_yields_each_document_byte_for_byte() {
    let (docs, err) = docs_of(b"[ {\"a\": 1} , [2, 3] ,\"x\" ]", true);
    assert_eq!(docs, vec!["{\"a\": 1}", "[2, 3]", "\"x\""]);
    assert_eq!(err, None);
}

#[test]
fn internal_whitespace_is_preserved_exactly() {
    let (docs, err) = docs_of(b"[ {\"a\" : [1 , 2]} ]", true);
    assert_eq!(docs, vec!["{\"a\" : [1 , 2]}"]);
    assert_eq!(err, None);
}

#[test]
fn empty_wrapped_array_yields_zero_documents() {
    let (docs, err) = docs_of(b"[]", true);
    assert_eq!(docs.len(), 0);
    assert_eq!(err, None);
    let (docs, err) = docs_of(b"  [ \t\r\n ]  ", true);
    assert_eq!(docs.len(), 0);
    assert_eq!(err, None);
}

#[test]
fn empty_bare_input_yields_zero_documents() {
    let (docs, err) = docs_of(b"", false);
    assert_eq!(docs.len(), 0);
    assert_eq!(err, None);
    let (docs, err) = docs_of(b" \t\r\n", false);
    assert_eq!(docs.len(), 0);
    assert_eq!(err, None);
}

#[test]
fn bare_sequence_yields_documents_without_separators() {
    let (docs, err) = docs_of(b" 1 2.5  {\"b\":2}{\"c\":3} \"s\" ", false);
    assert_eq!(docs, vec!["1", "2.5", "{\"b\":2}", "{\"c\":3}", "\"s\""]);
    assert_eq!(err, None);
}

#[test]
fn permissive_tokens_pass_through_unvalidated() {
    let (docs, err) = docs_of(b"NaN Infinity 0x1F -1.5e3 +.7", false);
    assert_eq!(docs, vec!["NaN", "Infinity", "0x1F", "-1.5e3", "+.7"]);
    assert_eq!(err, None);
}

#[test]
fn unterminated_string_is_unexpected_end_of_input() {
    let (docs, err) = docs_of(b"[\"abc", true);
    assert_eq!(docs.len(), 0);
    assert_eq!(err, Some(ParseError::UnexpectedEndOfInput));
}

#[test]
fn missing_colon_is_invalid_key_value_separator() {
    let (docs, err) = docs_of(b"[{\"a\" 1}]", true);
    assert_eq!(docs.len(), 0);
    assert_eq!(err, Some(ParseError::InvalidKeyValueSeparator));
}

#[test]
fn trailing_comma_is_invalid_token_start() {
    let (docs, err) = docs_of(b"[1,]", true);
    assert_eq!(docs, vec!["1"]);
    assert_eq!(err, Some(ParseError::InvalidTokenStart));
}

#[test]
fn control_character_in_string_is_rejected() {
    let (docs, err) = docs_of(b"[\"a\x01b\"]", true);
    assert_eq!(docs.len(), 0);
    assert_eq!(err, Some(ParseError::ControlCharacterInString));
}

#[test]
fn bad_array_terminator_stops_after_the_yielded_document() {
    let (docs, err) = docs_of(b"[1 2]", true);
    assert_eq!(docs, vec!["1"]);
    assert_eq!(err, Some(ParseError::InvalidArrayTerminator));
}

#[test]
fn bad_object_member_terminator_is_reported() {
    let (docs, err) = docs_of(b"[{\"a\":1;}]", true);
    assert_eq!(docs.len(), 0);
    assert_eq!(err, Some(ParseError::UnexpectedDocumentTerminator));
}

#[test]
fn nested_array_terminator_error_is_reported() {
    let (docs, err) = docs_of(b"[[1;2]]", true);
    assert_eq!(docs.len(), 0);
    assert_eq!(err, Some(ParseError::InvalidArrayTerminator));
}

#[test]
fn wrapped_mode_requires_array_start() {
    let (docs, err) = docs_of(b"1", true);
    assert_eq!(docs.len(), 0);
    assert_eq!(err, Some(ParseError::ExpectedArrayStart));
}

#[test]
fn bare_mode_rejects_a_byte_that_starts_no_value() {
    let (docs, err) = docs_of(b"%", false);
    assert_eq!(docs.len(), 0);
    assert_eq!(err, Some(ParseError::InvalidTokenStart));
}

#[test]
fn truncated_wrapped_input_is_unexpected_end_of_input() {
    let (docs, err) = docs_of(b"[", true);
    assert_eq!(docs.len(), 0);
    assert_eq!(err, Some(ParseError::UnexpectedEndOfInput));

    let (docs, err) = docs_of(b"[1", true);
    assert_eq!(docs, vec!["1"]);
    assert_eq!(err, Some(ParseError::UnexpectedEndOfInput));

    let (docs, err) = docs_of(b"{\"a\":", false);
    assert_eq!(docs.len(), 0);
    assert_eq!(err, Some(ParseError::UnexpectedEndOfInput));
}

#[test]
fn invalid_utf8_document_is_reported_at_hand_off() {
    let input: Vec<u8> = vec![b'[', b'"', 0xff, b'"', b']'];
    let r = parse_array_from_iter(input, true);
    assert_eq!(r.documents.len(), 0);
    assert_eq!(r.error, Some(ParseError::InvalidUtf8Document));
}

#[test]
fn escaped_quote_round_trips_byte_for_byte() {
    let (docs, err) = docs_of(b"[\"a\\\"b\"]", true);
    assert_eq!(docs, vec!["\"a\\\"b\""]);
    assert_eq!(err, None);
}

#[test]
fn multi_byte_utf8_round_trips_byte_for_byte() {
    let input = "[\"h\u{e9}llo \u{4e16}\u{754c}\"]".as_bytes();
    let (docs, err) = docs_of(input, true);
    assert_eq!(docs, vec!["\"h\u{e9}llo \u{4e16}\u{754c}\""]);
    assert_eq!(err, None);
}

#[test]
fn escape_takes_the_next_byte_even_a_control_byte() {
    // a backslash always consumes exactly one following raw byte
    let (docs, err) = docs_of(b"[\"a\\\x01b\"]", true);
    assert_eq!(docs.len(), 1);
    assert_eq!(err, None);
}

#[test]
fn driver_yields_documents_one_call_at_a_time() {
    let mut d = StreamDriver::new(b"[1,2]".to_vec(), true);
    assert_eq!(d.next_document(), Ok(Some("1".to_string())));
    assert_eq!(d.next_document(), Ok(Some("2".to_string())));
    assert_eq!(d.next_document(), Ok(None));
    assert_eq!(d.next_document(), Ok(None));
}

#[test]
fn driver_reports_a_bad_terminator_on_the_call_after_the_document() {
    let mut d = StreamDriver::new(b"[1 2]".to_vec(), true);
    assert_eq!(d.next_document(), Ok(Some("1".to_string())));
    assert_eq!(d.next_document(), Err(ParseError::InvalidArrayTerminator));
    assert_eq!(d.next_document(), Ok(None));
}

#[test]
fn cursor_peeks_without_consuming_and_advances_by_one() {
    let mut c = ByteCursor::new(b"ab".to_vec());
    assert!(c.has_next());
    assert_eq!(c.peek(), b'a');
    assert_eq!(c.peek(), b'a');
    assert_eq!(c.advance(), b'a');
    assert_eq!(c.advance(), b'b');
    assert!(!c.has_next());
}

#[test]
fn read_num_with_no_matching_byte_is_empty_token() {
    let mut c = ByteCursor::new(b"%".to_vec());
    let mut buf: Vec<u8> = Vec::new();
    assert_eq!(read_num(&mut c, &mut buf), Err(ParseError::EmptyToken));
    assert_eq!(buf.len(), 0);

    let mut c = ByteCursor::new(b"12a]".to_vec());
    let mut buf: Vec<u8> = Vec::new();
    assert_eq!(read_num(&mut c, &mut buf), Ok(()));
    assert_eq!(buf, b"12a".to_vec());
}

#[test]
fn read_string_appends_the_exact_source_bytes() {
    let mut c = ByteCursor::new(b"\"a b\"rest".to_vec());
    let mut buf: Vec<u8> = Vec::new();
    assert_eq!(read_string(&mut c, &mut buf), Ok(()));
    assert_eq!(buf, b"\"a b\"".to_vec());
    assert_eq!(c.peek(), b'r');
}

#[test]
fn read_doc_consumes_empty_and_nested_objects() {
    let mut c = ByteCursor::new(b"{ }x".to_vec());
    let mut buf: Vec<u8> = Vec::new();
    assert_eq!(read_doc(&mut c, &mut buf), Ok(()));
    assert_eq!(buf, b"{ }".to_vec());
    assert_eq!(c.peek(), b'x');

    let mut c = ByteCursor::new(b"{\"a\":{\"b\":[]}}".to_vec());
    let mut buf: Vec<u8> = Vec::new();
    assert_eq!(read_doc(&mut c, &mut buf), Ok(()));
    assert_eq!(buf, b"{\"a\":{\"b\":[]}}".to_vec());
}

#[test]
fn documents_before_an_invalid_utf8_document_are_still_yielded() {
    let mut input: Vec<u8> = Vec::new();
    input.extend_from_slice(b"[\"ok\", \"");
    input.push(0xff);
    input.extend_from_slice(b"\"]");
    let r = parse_array_from_iter(input, true);
    assert_eq!(r.documents, vec!["\"ok\""]);
    assert_eq!(r.error, Some(ParseError::InvalidUtf8Document));
}

#[test]
fn driver_steps_through_a_bare_sequence() {
    let mut d = StreamDriver::new(b" {\"a\":1} 2 ".to_vec(), false);
    assert_eq!(d.next_document(), Ok(Some("{\"a\":1}".to_string())));
    assert_eq!(d.next_document(), Ok(Some("2".to_string())));
    assert_eq!(d.next_document(), Ok(None));
}

#[test]
fn whitespace_helpers_drop_or_copy_the_run() {
    let mut c = ByteCursor::new(b"  \t x".to_vec());
    let mut buf: Vec<u8> = Vec::new();
    copy_whitespace(&mut c, &mut buf);
    assert_eq!(buf, b"  \t ".to_vec());
    assert_eq!(c.peek(), b'x');

    let mut c2 = ByteCursor::new(b" \n y".to_vec());
    drop_whitespace(&mut c2);
    assert_eq!(c2.peek(), b'y');
}

#[test]
fn read_array_consumes_one_array_with_nested_values() {
    let mut c = ByteCursor::new(b"[1, [2], \"x\"]rest".to_vec());
    let mut buf: Vec<u8> = Vec::new();
    assert_eq!(read_array(&mut c, &mut buf), Ok(()));
    assert_eq!(buf, b"[1, [2], \"x\"]".to_vec());
    assert_eq!(c.peek(), b'r');
}

#[test]
fn parse_token_takes_leading_whitespace_into_the_value() {
    // inside a value, surrounding whitespace belongs to the document
    let mut c = ByteCursor::new(b"  42,".to_vec());
    let mut buf: Vec<u8> = Vec::new();
    assert_eq!(parse_token(&mut c, &mut buf), Ok(()));
    assert_eq!(buf, b"  42".to_vec());
    assert_eq!(c.peek(), b',');
}
