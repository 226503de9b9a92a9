use minikv::protocol::{Element, Error};
use minikv::reader::ElementParser;
use minikv::utils::decode_hex;
use minikv::writer::serialize_element;

fn parse(bytes: &[u8]) -> Result<Element, Error> {
    ElementParser::new(bytes).parse()
}

fn bulk(b: &[u8]) -> Element {
    Element::BulkString(b.to_vec())
}

#[test]
fn encodes_each_variant() {
    assert_eq!(
        serialize_element(Element::SimpleString("OK".to_string())),
        b"+OK\r\n".to_vec()
    );
    assert_eq!(serialize_element(bulk(b"hello")), b"$5\r\nhello\r\n".to_vec());
    assert_eq!(serialize_element(bulk(b"")), b"$0\r\n\r\n".to_vec());
    assert_eq!(serialize_element(Element::NullBulkString), b"$-1\r\n".to_vec());
    assert_eq!(serialize_element(Element::Array(vec![])), b"*0\r\n".to_vec());
    assert_eq!(
        serialize_element(Element::RdbFile(b"abc".to_vec())),
        b"$3\r\nabc".to_vec()
    );
    assert_eq!(
        serialize_element(Element::MultiInternal(vec![
            Element::SimpleString("A".to_string()),
            bulk(b"b"),
        ])),
        b"+A\r\n$1\r\nb\r\n".to_vec()
    );
}

#[test]
fn encodes_length_with_several_digits() {
    let payload = vec![b'x'; 1234];
    let out = serialize_element(Element::BulkString(payload.clone()));
    assert_eq!(&out[..7], b"$1234\r\n");
    assert_eq!(out.len(), 7 + 1234 + 2);
}

#[test]
fn round_trip_nested() {
    let e = Element::Array(vec![
        bulk(b"SET"),
        Element::SimpleString("h\u{e9}llo \u{1F600}".to_string()),
        Element::Array(vec![]),
        Element::Array(vec![bulk(b""), bulk(b"a\r\nb"), Element::NullBulkString]),
    ]);
    let bytes = serialize_element(Element::Array(vec![
        bulk(b"SET"),
        Element::SimpleString("h\u{e9}llo \u{1F600}".to_string()),
        Element::Array(vec![]),
        Element::Array(vec![bulk(b""), bulk(b"a\r\nb"), Element::NullBulkString]),
    ]));
    assert_eq!(parse(&bytes), Ok(e));
}

#[test]
fn round_trip_keeps_following_bytes() {
    let mut bytes = serialize_element(bulk(b"one"));
    bytes.extend_from_slice(b"+two\r\n");
    let mut parser = ElementParser::new(&bytes);
    assert_eq!(parser.parse(), Ok(bulk(b"one")));
    assert_eq!(parser.parse(), Ok(Element::SimpleString("two".to_string())));
    assert_eq!(parser.parse(), Err(Error::ShortRead));
}

#[test]
fn empty_input_is_short_read() {
    assert_eq!(parse(b""), Err(Error::ShortRead));
}

#[test]
fn unknown_tag_is_malformed() {
    assert_eq!(parse(b"-ERR\r\n"), Err(Error::MalformedFrame));
    assert_eq!(parse(b":1\r\n"), Err(Error::MalformedFrame));
}

#[test]
fn null_bulk_string_parses() {
    assert_eq!(parse(b"$-1\r\n"), Ok(Element::NullBulkString));
    assert_eq!(parse(b"$-2\r\n"), Err(Error::MalformedFrame));
    assert_eq!(parse(b"$-1\rX"), Err(Error::MalformedFrame));
    assert_eq!(parse(b"$-"), Err(Error::ShortRead));
    let bytes = serialize_element(Element::NullBulkString);
    assert_eq!(parse(&bytes), Ok(Element::NullBulkString));
}

#[test]
fn every_truncation_fails() {
    let bytes = serialize_element(Element::Array(vec![
        bulk(b"ECHO"),
        Element::SimpleString("hi".to_string()),
    ]));
    for k in 0..bytes.len() {
        assert!(parse(&bytes[..k]).is_err(), "prefix of {} bytes parsed", k);
    }
}

#[test]
fn missing_line_feed_fails() {
    assert_eq!(parse(b"+OK\rX"), Err(Error::MalformedFrame));
    assert_eq!(parse(b"$2\r\nabXY"), Err(Error::MalformedFrame));
    assert_eq!(parse(b"$2\r\nab\rY"), Err(Error::MalformedFrame));
    assert_eq!(parse(b"$2\nab\r\n"), Err(Error::MalformedFrame));
    assert_eq!(parse(b"+OK"), Err(Error::ShortRead));
}

#[test]
fn declared_length_beyond_buffer_fails() {
    assert_eq!(parse(b"$10\r\nabc\r\n"), Err(Error::ShortRead));
    assert_eq!(parse(b"*3\r\n$1\r\na\r\n"), Err(Error::ShortRead));
}

#[test]
fn length_overflow_is_malformed() {
    assert_eq!(
        parse(b"$99999999999999999999999\r\n"),
        Err(Error::MalformedFrame)
    );
}

#[test]
fn non_canonical_lengths_are_malformed() {
    assert_eq!(parse(b"$\r\n\r\n"), Err(Error::MalformedFrame));
    assert_eq!(parse(b"*\r\n"), Err(Error::MalformedFrame));
    assert_eq!(parse(b"$03\r\nabc\r\n"), Err(Error::MalformedFrame));
    assert_eq!(parse(b"*00\r\n"), Err(Error::MalformedFrame));
    assert_eq!(parse(b"$"), Err(Error::ShortRead));
    assert_eq!(parse(b"$0\r\n\r\n"), Ok(bulk(b"")));
    assert_eq!(parse(b"$10\r\n0123456789\r\n"), Ok(bulk(b"0123456789")));
}

#[test]
fn parsed_frames_re_encode_to_their_bytes() {
    let inputs: Vec<&[u8]> = vec![
        b"$0\r\n\r\n",
        b"$-1\r\n",
        b"*2\r\n$3\r\nfoo\r\n*1\r\n+ok\r\n",
        b"*0\r\n",
        b"+a\nb\r\n",
    ];
    for input in inputs {
        let e = parse(input).unwrap();
        assert_eq!(serialize_element(e), input.to_vec());
    }
}

#[test]
fn bad_header_terminator_fails() {
    assert_eq!(parse(b"$3X\nabc\r\n"), Err(Error::MalformedFrame));
    assert_eq!(parse(b"$3\rXabc\r\n"), Err(Error::MalformedFrame));
    assert_eq!(parse(b"*1X\n$1\r\na\r\n"), Err(Error::MalformedFrame));
    assert_eq!(parse(b"*1\n$1\r\na\r\n"), Err(Error::MalformedFrame));
}

#[test]
fn nested_declared_length_beyond_buffer_fails() {
    assert_eq!(parse(b"*1\r\n$10\r\nabc\r\n"), Err(Error::ShortRead));
    assert_eq!(parse(b"*2\r\n+ok\r\n*1\r\n$5\r\nab\r\n"), Err(Error::ShortRead));
}

#[test]
fn simple_string_text_is_decoded() {
    assert_eq!(
        parse("+caf\u{e9}\r\n".as_bytes()),
        Ok(Element::SimpleString("caf\u{e9}".to_string()))
    );
    assert_eq!(parse(b"+caf\xe9\r\n"), Err(Error::MalformedFrame));
}

#[test]
fn decode_hex_pairs() {
    assert_eq!(decode_hex("00ff10Ab"), vec![0x00, 0xff, 0x10, 0xab]);
    assert_eq!(decode_hex(""), Vec::<u8>::new());
}
