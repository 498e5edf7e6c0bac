use hermes::chunked::ChunkDecoder;
use hermes::framer::Framer;
use hermes::parser::{Parser, Request, Step};
use hermes::{encode, DecodeError, Decoder, Value};

fn text(s: &str) -> String {
    s.to_string()
}

fn done(step: Step) -> Value {
    match step {
        Step::Done(value) => value,
        other => panic!("not done: {:?}", other),
    }
}

fn failed(step: Step) -> DecodeError {
    match step {
        Step::Failed(error) => error,
        other => panic!("not failed: {:?}", other),
    }
}

fn chunks_of(bytes: &[u8], size: usize) -> Vec<Vec<u8>> {
    bytes.chunks(size).map(|c| c.to_vec()).collect()
}

fn decode_all(mut next: impl FnMut() -> Result<Value, DecodeError>) -> Vec<Result<Value, DecodeError>> {
    let mut seen = Vec::new();
    loop {
        let outcome = next();
        let stop = outcome.is_err();
        seen.push(outcome);
        if stop {
            return seen;
        }
    }
}

#[test]
fn parser_asks_for_a_line_first() {
    let parser = Parser::new(false);
    assert_eq!(parser.request(), Request::Line);
}

#[test]
fn parser_takes_a_scalar_in_one_step() {
    let mut parser = Parser::new(false);
    assert_eq!(done(parser.feed(b":42\r\n".to_vec())), Value::Integer(42));
    assert_eq!(parser.request(), Request::Line);
}

#[test]
fn parser_asks_for_the_block_of_a_bulk() {
    let mut parser = Parser::new(false);
    assert!(matches!(parser.feed(b"$5\r\n".to_vec()), Step::More));
    assert_eq!(parser.request(), Request::Block(7));
    assert_eq!(
        done(parser.feed(b"hello\r\n".to_vec())),
        Value::Bulk(text("hello"))
    );
    assert_eq!(parser.request(), Request::Line);
}

#[test]
fn parser_in_raw_mode_keeps_bytes() {
    let mut parser = Parser::new(true);
    assert!(matches!(parser.feed(b"$2\r\n".to_vec()), Step::More));
    assert_eq!(
        done(parser.feed(vec![0xff, 0xfe, 13, 10])),
        Value::BufBulk(vec![0xff, 0xfe])
    );
}

#[test]
fn parser_takes_an_empty_bulk() {
    let mut parser = Parser::new(false);
    assert!(matches!(parser.feed(b"$0\r\n".to_vec()), Step::More));
    assert_eq!(parser.request(), Request::Block(2));
    assert_eq!(done(parser.feed(b"\r\n".to_vec())), Value::Bulk(String::new()));
}

#[test]
fn parser_fails_on_a_short_block() {
    let mut parser = Parser::new(false);
    assert!(matches!(parser.feed(b"$5\r\n".to_vec()), Step::More));
    assert_eq!(failed(parser.feed(b"hel".to_vec())), DecodeError::Truncated);
    assert_eq!(parser.request(), Request::Line);
}

#[test]
fn parser_fails_on_a_long_block() {
    let mut parser = Parser::new(false);
    assert!(matches!(parser.feed(b"$1\r\n".to_vec()), Step::More));
    assert_eq!(failed(parser.feed(b"a\r\n+".to_vec())), DecodeError::Truncated);
}

#[test]
fn parser_gathers_an_array() {
    let mut parser = Parser::new(false);
    assert!(matches!(parser.feed(b"*2\r\n".to_vec()), Step::More));
    assert_eq!(parser.request(), Request::Line);
    assert!(matches!(parser.feed(b":1\r\n".to_vec()), Step::More));
    assert!(matches!(parser.feed(b"$1\r\n".to_vec()), Step::More));
    assert_eq!(parser.request(), Request::Block(3));
    assert_eq!(
        done(parser.feed(b"x\r\n".to_vec())),
        Value::Array(vec![Value::Integer(1), Value::Bulk(text("x"))])
    );
}

#[test]
fn parser_closes_nested_arrays_together() {
    let mut parser = Parser::new(false);
    assert!(matches!(parser.feed(b"*2\r\n".to_vec()), Step::More));
    assert!(matches!(parser.feed(b"+a\r\n".to_vec()), Step::More));
    assert!(matches!(parser.feed(b"*1\r\n".to_vec()), Step::More));
    assert!(matches!(parser.feed(b"*1\r\n".to_vec()), Step::More));
    assert_eq!(
        done(parser.feed(b"*0\r\n".to_vec())),
        Value::Array(vec![
            Value::String(text("a")),
            Value::Array(vec![Value::Array(vec![Value::Array(Vec::new())])]),
        ])
    );
}

#[test]
fn parser_drops_the_array_on_failure() {
    let mut parser = Parser::new(false);
    assert!(matches!(parser.feed(b"*3\r\n".to_vec()), Step::More));
    assert!(matches!(parser.feed(b":1\r\n".to_vec()), Step::More));
    assert_eq!(
        failed(parser.feed(b"!\r\n".to_vec())),
        DecodeError::UnknownType(b'!')
    );
    assert_eq!(done(parser.feed(b":2\r\n".to_vec())), Value::Integer(2));
}

#[test]
fn parser_fails_on_an_empty_line() {
    let mut parser = Parser::new(false);
    assert_eq!(failed(parser.feed(Vec::new())), DecodeError::EndOfStream);
}

#[test]
fn framer_gathers_a_line_over_chunks() {
    let mut framer = Framer::new(Request::Line);
    assert!(!framer.is_complete());
    assert_eq!(framer.push(b"+O"), 2);
    assert!(!framer.is_complete());
    assert_eq!(framer.push(b""), 0);
    assert_eq!(framer.push(b"K\r"), 2);
    assert!(!framer.is_complete());
    assert_eq!(framer.push(b"\n:1\r\n"), 1);
    assert!(framer.is_complete());
    assert_eq!(framer.push(b":1\r\n"), 0);
    assert_eq!(framer.into_input(), b"+OK\r\n".to_vec());
}

#[test]
fn framer_stops_at_the_first_lf() {
    let mut framer = Framer::new(Request::Line);
    assert_eq!(framer.push(b"ab\ncd\nef"), 3);
    assert!(framer.is_complete());
    assert_eq!(framer.into_input(), b"ab\n".to_vec());
}

#[test]
fn framer_gathers_a_block_over_chunks() {
    let mut framer = Framer::new(Request::Block(7));
    assert_eq!(framer.push(b"he"), 2);
    assert_eq!(framer.push(b"l\nlo"), 4);
    assert!(!framer.is_complete());
    assert_eq!(framer.push(b"\r\n+next"), 1);
    assert!(framer.is_complete());
    assert_eq!(framer.push(b"\n+next"), 0);
    assert_eq!(framer.into_input(), b"hel\nlo\r".to_vec());
}

#[test]
fn framer_hands_out_what_a_short_stream_had() {
    let mut framer = Framer::new(Request::Block(10));
    assert_eq!(framer.push(b"abc"), 3);
    assert!(!framer.is_complete());
    assert_eq!(framer.into_input(), b"abc".to_vec());
    let framer = Framer::new(Request::Line);
    assert!(!framer.is_complete());
    assert_eq!(framer.into_input(), Vec::<u8>::new());
}

#[test]
fn framer_block_of_nothing_is_complete() {
    let mut framer = Framer::new(Request::Block(0));
    assert!(framer.is_complete());
    assert_eq!(framer.push(b"abc"), 0);
    assert_eq!(framer.into_input(), Vec::<u8>::new());
}

#[test]
fn chunked_input_decodes_as_contiguous_input() {
    let mut stream = Vec::new();
    for value in [
        Value::String(text("OK")),
        Value::Integer(-9000),
        Value::Bulk(text("h\u{e9}llo\r\nworld")),
        Value::Null,
        Value::Array(vec![
            Value::NullArray,
            Value::Array(vec![Value::Bulk(text("a")), Value::Bulk(String::new())]),
            Value::Error(text("ERR x")),
        ]),
        Value::Array(Vec::new()),
    ] {
        stream.extend_from_slice(&encode(&value));
    }
    stream.extend_from_slice(b"$3\r\nabcXX");
    let mut whole = Decoder::new(stream.clone());
    let expected = decode_all(|| whole.decode());
    assert_eq!(expected.len(), 7);
    assert_eq!(
        expected.last(),
        Some(&Err(DecodeError::BadTerminator(b'X', b'X')))
    );
    for size in [1, 2, 3, 5, 7, 64, stream.len()] {
        let mut chunked = ChunkDecoder::new(chunks_of(&stream, size));
        let seen = decode_all(|| chunked.decode());
        assert_eq!(seen, expected);
    }
}

#[test]
fn chunked_input_in_raw_mode() {
    let stream = b"*2\r\n$5\r\nhello\r\n$2\r\n\xff\x00\r\n".to_vec();
    let expected = Value::Array(vec![
        Value::BufBulk(b"hello".to_vec()),
        Value::BufBulk(vec![0xff, 0]),
    ]);
    let mut chunked = ChunkDecoder::with_buf_bulk(chunks_of(&stream, 1));
    assert_eq!(chunked.decode(), Ok(expected));
    assert_eq!(chunked.decode(), Err(DecodeError::EndOfStream));
}

#[test]
fn empty_chunks_do_not_matter() {
    let chunks = vec![
        Vec::new(),
        b"$5".to_vec(),
        Vec::new(),
        Vec::new(),
        b"\r\nhel".to_vec(),
        b"lo\r".to_vec(),
        Vec::new(),
        b"\n".to_vec(),
        Vec::new(),
    ];
    let mut chunked = ChunkDecoder::new(chunks);
    assert_eq!(chunked.decode(), Ok(Value::Bulk(text("hello"))));
    assert_eq!(chunked.decode(), Err(DecodeError::EndOfStream));
}

#[test]
fn no_chunks_are_an_empty_stream() {
    let mut chunked = ChunkDecoder::new(Vec::new());
    assert_eq!(chunked.decode(), Err(DecodeError::EndOfStream));
}

#[test]
fn chunk_cut_inside_a_payload_is_truncated() {
    let mut chunked = ChunkDecoder::new(vec![b"$5\r\nhe".to_vec(), b"l".to_vec()]);
    assert_eq!(chunked.decode(), Err(DecodeError::Truncated));
}
