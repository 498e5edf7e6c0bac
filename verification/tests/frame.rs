use hermes::frame::{is_crlf, parse_header, parse_length, parse_payload, Header};
use hermes::text::parse_string;
use hermes::{DecodeError, Value};

fn header_value(line: &[u8]) -> Value {
    match parse_header(line) {
        Ok(Header::Value(value)) => value,
        other => panic!("not a value: {:?}", other),
    }
}

fn header_error(line: &[u8]) -> DecodeError {
    match parse_header(line) {
        Err(error) => error,
        other => panic!("not an error: {:?}", other),
    }
}

#[test]
fn is_crlf_takes_cr_then_lf_only() {
    assert!(is_crlf(b'\r', b'\n'));
    assert!(!is_crlf(b'\n', b'\r'));
    assert!(!is_crlf(b'\r', b'\r'));
    assert!(!is_crlf(b'\n', b'\n'));
    assert!(!is_crlf(b'a', b'\n'));
}

#[test]
fn parse_string_reads_utf8() {
    assert_eq!(parse_string(b"hello"), Ok("hello".to_string()));
    assert_eq!(parse_string(b""), Ok(String::new()));
    assert_eq!(
        parse_string("\u{10ffff}\u{0}\u{7ff}".as_bytes()),
        Ok("\u{10ffff}\u{0}\u{7ff}".to_string())
    );
}

#[test]
fn parse_string_refuses_what_is_not_utf8() {
    assert_eq!(parse_string(b"\x80"), Err(DecodeError::Utf8));
    assert_eq!(parse_string(b"\xc0\x80"), Err(DecodeError::Utf8));
    assert_eq!(parse_string(b"\xf4\x90\x80\x80"), Err(DecodeError::Utf8));
    assert_eq!(parse_string(b"ab\xe2\x82"), Err(DecodeError::Utf8));
}

#[test]
fn parse_length_takes_minus_one_to_below_the_ceiling() {
    assert_eq!(parse_length(b"-1"), Ok(-1));
    assert_eq!(parse_length(b"0"), Ok(0));
    assert_eq!(parse_length(b"536870911"), Ok(536870911));
    assert_eq!(
        parse_length(b"536870912"),
        Err(DecodeError::InvalidLength(536870912))
    );
    assert_eq!(parse_length(b"-2"), Err(DecodeError::InvalidLength(-2)));
    assert_eq!(parse_length(b"x"), Err(DecodeError::Format));
    assert_eq!(parse_length(b"+1"), Err(DecodeError::Format));
}

#[test]
fn parse_header_reads_whole_values() {
    assert_eq!(header_value(b"+OK\r\n"), Value::String("OK".to_string()));
    assert_eq!(header_value(b"-ERR\r\n"), Value::Error("ERR".to_string()));
    assert_eq!(header_value(b":-3\r\n"), Value::Integer(-3));
    assert_eq!(header_value(b"$-1\r\n"), Value::Null);
    assert_eq!(header_value(b"*-1\r\n"), Value::NullArray);
}

#[test]
fn parse_header_announces_lengths() {
    assert!(matches!(parse_header(b"$12\r\n"), Ok(Header::Bulk(12))));
    assert!(matches!(parse_header(b"$0\r\n"), Ok(Header::Bulk(0))));
    assert!(matches!(parse_header(b"*3\r\n"), Ok(Header::Array(3))));
    assert!(matches!(parse_header(b"*0\r\n"), Ok(Header::Array(0))));
    assert!(matches!(
        parse_header(b"$536870911\r\n"),
        Ok(Header::Bulk(536870911))
    ));
}

#[test]
fn parse_header_checks_in_order() {
    assert_eq!(header_error(b""), DecodeError::EndOfStream);
    assert_eq!(header_error(b"?"), DecodeError::ShortFrame(1));
    assert_eq!(header_error(b"?\n"), DecodeError::ShortFrame(2));
    assert_eq!(header_error(b"?ab"), DecodeError::BadTerminator(b'a', b'b'));
    assert_eq!(header_error(b"?\r\n"), DecodeError::UnknownType(b'?'));
    assert_eq!(header_error(b":x\r\n"), DecodeError::Format);
    assert_eq!(header_error(b":+5\r\n"), DecodeError::Format);
    assert_eq!(header_error(b"$+5\r\n"), DecodeError::Format);
    assert_eq!(header_error(b"+\xff\r\n"), DecodeError::Utf8);
    assert_eq!(header_error(b"*-7\r\n"), DecodeError::InvalidLength(-7));
}

#[test]
fn parse_payload_reads_the_block() {
    assert_eq!(
        parse_payload(b"hello\r\n".to_vec(), 5, false),
        Ok(Value::Bulk("hello".to_string()))
    );
    assert_eq!(
        parse_payload(b"hello\r\n".to_vec(), 5, true),
        Ok(Value::BufBulk(b"hello".to_vec()))
    );
    assert_eq!(
        parse_payload(b"\r\n".to_vec(), 0, false),
        Ok(Value::Bulk(String::new()))
    );
}

#[test]
fn parse_payload_refuses_a_bad_block() {
    assert_eq!(
        parse_payload(b"hello\r\n".to_vec(), 4, false),
        Err(DecodeError::Truncated)
    );
    assert_eq!(
        parse_payload(b"hello".to_vec(), 5, false),
        Err(DecodeError::Truncated)
    );
    assert_eq!(
        parse_payload(Vec::new(), usize::MAX, true),
        Err(DecodeError::Truncated)
    );
    assert_eq!(
        parse_payload(b"hello\n\n".to_vec(), 5, true),
        Err(DecodeError::BadTerminator(b'\n', b'\n'))
    );
    assert_eq!(
        parse_payload(b"\xff\r\n".to_vec(), 1, false),
        Err(DecodeError::Utf8)
    );
}
