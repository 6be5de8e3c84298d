use email_breaker::{EmailBreaker, MailHeader, ParseError};

#[test]
fn space_in_front_of_header() {
    let breaker = EmailBreaker::new(true, false);
    let result = breaker.parse_header(b"  Key: Value");
    assert!(result.is_err());
    let err = result.unwrap_err();
    assert_eq!(err, ParseError::MalformedLeadingWhitespace);
}

#[test]
fn multi_line_value() {
    let breaker = EmailBreaker::default();
    let (_, header) = breaker
        .parse_header(b"Key: Value1\n  Value2\n   Value3\r\n")
        .unwrap();
    assert_eq!(header.key, b"Key");
    assert_eq!(header.value, b"Value1\n  Value2\n   Value3");
}

#[test]
fn headers() {
    let breaker = EmailBreaker::default();
    let input = String::from("Subject: This is a test email\r\n")
        + "Content-Type: multipart/alternative; boundary=foobar\r\n"
        + "Date: Sun, 02 Oct 2016 07:06:22 -0700 (PDT)\r\n"
        + "\r\n";
    let (remain, headers) = breaker.parse_headers(input.as_bytes()).unwrap();

    assert_eq!(remain.len(), 0);
    assert_eq!(headers.len(), 3);
    assert_eq!(headers[0].key, b"Subject");
    assert_eq!(headers[0].value, b"This is a test email");
    assert_eq!(headers[1].key, b"Content-Type");
    assert_eq!(headers[1].value, b"multipart/alternative; boundary=foobar");
    assert_eq!(headers[2].key, b"Date");
    assert_eq!(headers[2].value, b"Sun, 02 Oct 2016 07:06:22 -0700 (PDT)");
}

#[test]
fn simple_header_with_crlf() {
    let breaker = EmailBreaker::default();
    let (rest, header) = breaker.parse_header(b"Key: Value\r\n").unwrap();
    assert_eq!(header.key, b"Key");
    assert_eq!(header.value, b"Value");
    assert_eq!(rest.len(), 0);
}

#[test]
fn remaining_bytes_follow_the_field() {
    let breaker = EmailBreaker::default();
    let (rest, header) = breaker.parse_header(b"A: one\r\nB: two\r\n").unwrap();
    assert_eq!(header.key, b"A");
    assert_eq!(header.value, b"one");
    assert_eq!(rest, b"B: two\r\n");
}

#[test]
fn missing_colon() {
    let breaker = EmailBreaker::default();
    let err = breaker.parse_header(b"NoColonHere\r\n").unwrap_err();
    assert_eq!(err, ParseError::MissingColon);
}

#[test]
fn empty_key() {
    let breaker = EmailBreaker::default();
    let err = breaker.parse_header(b": Value\r\n").unwrap_err();
    assert_eq!(err, ParseError::EmptyKey);
}

#[test]
fn leading_whitespace_allowed_when_lenient() {
    let breaker = EmailBreaker::new(false, false);
    let (_, header) = breaker.parse_header(b"  Key: Value\r\n").unwrap();
    assert_eq!(header.key, b"Key");
    assert_eq!(header.value, b"Value");
}

#[test]
fn key_is_not_trimmed_and_value_needs_no_space() {
    let breaker = EmailBreaker::default();
    let (_, header) = breaker.parse_header(b"Key :Value\r\n").unwrap();
    assert_eq!(header.key, b"Key ");
    assert_eq!(header.value, b"Value");
}

#[test]
fn bare_line_feed_rejected_simple() {
    let breaker = EmailBreaker::new(false, true);
    let err = breaker.parse_header(b"Key: Value\n").unwrap_err();
    assert_eq!(err, ParseError::BareLineFeedRejected);
}

#[test]
fn bare_line_feed_rejected_folded() {
    let breaker = EmailBreaker::new(false, true);
    let err = breaker.parse_header(b"Key: Value1\n  Value2\r\n").unwrap_err();
    assert_eq!(err, ParseError::BareLineFeedRejected);
}

#[test]
fn strict_crlf_accepts_crlf() {
    let breaker = EmailBreaker::new(true, true);
    let (rest, header) = breaker.parse_header(b"Key: Value\r\nNext").unwrap();
    assert_eq!(header.value, b"Value");
    assert_eq!(rest, b"Next");
}

#[test]
fn bare_line_feed_ends_field_when_lenient() {
    let breaker = EmailBreaker::default();
    let (rest, header) = breaker.parse_header(b"Key: Value\nNext: x\n").unwrap();
    assert_eq!(header.value, b"Value");
    assert_eq!(rest, b"Next: x\n");
}

#[test]
fn crlf_line_does_not_fold() {
    let breaker = EmailBreaker::default();
    let (rest, header) = breaker.parse_header(b"Key: A\r\n B\r\n").unwrap();
    assert_eq!(header.value, b"A");
    assert_eq!(rest, b" B\r\n");
}

#[test]
fn lone_carriage_return_in_value() {
    let breaker = EmailBreaker::default();
    let err = breaker.parse_header(b"Key: A\rB\r\n").unwrap_err();
    assert_eq!(err, ParseError::UnterminatedCrlf);
}

#[test]
fn value_without_terminator_needs_more_input() {
    let breaker = EmailBreaker::default();
    assert_eq!(
        breaker.parse_header(b"Key: Value").unwrap_err(),
        ParseError::NeedMoreInput
    );
    assert_eq!(
        breaker.parse_header(b"Key: Value\r").unwrap_err(),
        ParseError::NeedMoreInput
    );
}

#[test]
fn empty_block() {
    let breaker = EmailBreaker::default();
    let (rest, headers) = breaker.parse_headers(b"").unwrap();
    assert_eq!(headers.len(), 0);
    assert_eq!(rest.len(), 0);
    let (rest, headers) = breaker.parse_headers(b"\r\nBody").unwrap();
    assert_eq!(headers.len(), 0);
    assert_eq!(rest, b"Body");
}

#[test]
fn block_returns_body() {
    let breaker = EmailBreaker::default();
    let (rest, headers) = breaker
        .parse_headers(b"A: 1\nB: 2\n continued\r\n\nBody text")
        .unwrap();
    assert_eq!(headers.len(), 2);
    assert_eq!(headers[0].key, b"A");
    assert_eq!(headers[0].value, b"1");
    assert_eq!(headers[1].key, b"B");
    assert_eq!(headers[1].value, b"2\n continued");
    assert_eq!(rest, b"Body text");
}

#[test]
fn block_without_blank_line_ends_at_buffer_end() {
    let breaker = EmailBreaker::default();
    let (rest, headers) = breaker.parse_headers(b"A: 1\r\nB: 2\r\n").unwrap();
    assert_eq!(headers.len(), 2);
    assert_eq!(rest.len(), 0);
}

#[test]
fn block_lone_carriage_return_at_boundary() {
    let breaker = EmailBreaker::default();
    let err = breaker.parse_headers(b"A: 1\r\n\rX").unwrap_err();
    assert_eq!(err, ParseError::UnterminatedCrlf);
}

#[test]
fn block_propagates_field_error() {
    let breaker = EmailBreaker::default();
    let err = breaker
        .parse_headers(b"A: 1\r\nNoColon\r\n\r\n")
        .unwrap_err();
    assert_eq!(err, ParseError::MissingColon);
    let strict = EmailBreaker::new(false, true);
    let err = strict.parse_headers(b"A: 1\r\nB: 2\n\r\n").unwrap_err();
    assert_eq!(err, ParseError::BareLineFeedRejected);
}

#[test]
fn default_header_is_empty() {
    let header = MailHeader::default();
    assert_eq!(header.key.len(), 0);
    assert_eq!(header.value.len(), 0);
}

#[test]
fn lf_blank_line_ends_block() {
    let breaker = EmailBreaker::default();
    let (rest, headers) = breaker.parse_headers(b"A: 1\n\nBody").unwrap();
    assert_eq!(headers.len(), 1);
    assert_eq!(headers[0].key, b"A");
    assert_eq!(headers[0].value, b"1");
    assert_eq!(rest, b"Body");
}

#[test]
fn blank_line_after_bare_line_feed_is_no_fold() {
    let breaker = EmailBreaker::default();
    let (rest, header) = breaker.parse_header(b"Key: A\n\r\n").unwrap();
    assert_eq!(header.value, b"A");
    assert_eq!(rest, b"\r\n");
    let (rest, header) = breaker.parse_header(b"Key: A\n\tB\nC: d\n").unwrap();
    assert_eq!(header.value, b"A\n\tB");
    assert_eq!(rest, b"C: d\n");
}

#[test]
fn whitespace_after_colon_includes_line_endings() {
    let breaker = EmailBreaker::default();
    let (rest, header) = breaker.parse_header(b"Key:\n V\r\n").unwrap();
    assert_eq!(header.key, b"Key");
    assert_eq!(header.value, b"V");
    assert_eq!(rest.len(), 0);
    let (rest, header) = breaker.parse_header(b"Key:\r\nNext: x\r\n").unwrap();
    assert_eq!(header.value, b"Next: x");
    assert_eq!(rest.len(), 0);
}

#[test]
fn strict_crlf_skips_line_feed_after_colon() {
    let breaker = EmailBreaker::new(false, true);
    let (_, header) = breaker.parse_header(b"Key:\n Value\r\n").unwrap();
    assert_eq!(header.value, b"Value");
}

#[test]
fn no_colon_before_buffer_end_needs_more_input() {
    let breaker = EmailBreaker::default();
    assert_eq!(breaker.parse_header(b"NoColonYet").unwrap_err(), ParseError::NeedMoreInput);
    assert_eq!(breaker.parse_header(b"").unwrap_err(), ParseError::NeedMoreInput);
    assert_eq!(breaker.parse_header(b"NoColon\nHere").unwrap_err(), ParseError::MissingColon);
}

#[test]
fn switches_are_read_back() {
    let breaker = EmailBreaker::new(true, false);
    assert!(breaker.strict_header());
    assert!(!breaker.strict_crlf());
    let lenient = EmailBreaker::default();
    assert!(!lenient.strict_header());
    assert!(!lenient.strict_crlf());
}
