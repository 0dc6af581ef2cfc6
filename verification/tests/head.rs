use http_codec::buffer_write::BufferWriteState;
use http_codec::errors::HeadError;
use http_codec::head::RequestHead;
use http_codec::head::ResponseHead;
use http_codec::head::StatusLine;
use http_codec::head::Version;
use http_codec::head_parse::RequestHeadParse;
use http_codec::head_parse::ResponseHeadParse;
use http_codec::head_parse::request_head_parse;
use http_codec::head_parse::response_head_parse;
use http_codec::headers::FramingError;
use http_codec::headers::Headers;
use http_codec::headers::length_from_headers;

fn header_value<'a>(headers: &'a Headers, name: &str) -> Option<&'a [u8]> {
    for f in &headers.fields {
        if f.name.eq_ignore_ascii_case(name.as_bytes()) {
            return Some(&f.value);
        }
    }
    None
}

fn check_request(head: &RequestHead) {
    assert_eq!(head.version(), Version::Http11);
    assert_eq!(head.method().as_slice(), b"GET");
    assert_eq!(head.uri().as_slice(), b"/");
    assert_eq!(header_value(head.headers(), "host").unwrap(), b"www.example.com");
    assert_eq!(header_value(head.headers(), "connection").unwrap(), b"close");
}

const REQUEST_INPUT: &[u8] = b"GET / HTTP/1.1\r\nhost: www.example.com\r\nconnection: close\r\n\r\n";

#[test]
fn request_head_test() {
    let mut parser = RequestHeadParse::new(8192, 128);
    let mut pos = 0usize;
    parser.read_data(REQUEST_INPUT, &mut pos).unwrap();
    assert!(parser.is_complete());
    let head = parser.try_take_head().unwrap();
    check_request(&head);
    // encode back: byte for byte the same head
    assert_eq!(head.to_vec().unwrap(), REQUEST_INPUT);
}

#[test]
fn test_request_head_parse() {
    let mut parser = RequestHeadParse::new(8096, 10);
    let mut pos = 0usize;
    let size = parser.read_data(REQUEST_INPUT, &mut pos).unwrap();
    println!("{}", size);
    assert_eq!(size, REQUEST_INPUT.len());
    let head = parser.try_take_head().unwrap();
    check_request(&head);
}

#[test]
fn decode_owned_transport() {
    // one byte of body is buffered behind the head: it must not be read
    let input = b"GET / HTTP/1.1\r\nHost: www.example.com\r\nConnection: close\r\n\r\n ";
    let mut parser = RequestHeadParse::new(8192, 128);
    let mut pos = 0usize;
    parser.read_data(input, &mut pos).unwrap();
    assert!(parser.is_complete());
    assert_eq!(pos, input.len() - 1);
    let head = parser.try_take_head().unwrap();
    assert_eq!(head.method().as_slice(), b"GET");
    assert_eq!(header_value(head.headers(), "Host").unwrap(), b"www.example.com");
    assert_eq!(header_value(head.headers(), "Connection").unwrap(), b"close");
}

#[test]
fn decode_referenced_transport() {
    // the same head arriving in single-byte fragments
    let input = b"GET / HTTP/1.1\r\nHost: www.example.com\r\nConnection: close\r\n\r\n ";
    let mut parser = RequestHeadParse::new(8192, 128);
    let mut consumed = 0usize;
    while !parser.is_complete() {
        let mut pos = 0usize;
        parser.read_data(&input[consumed..consumed + 1], &mut pos).unwrap();
        consumed += pos;
    }
    assert_eq!(consumed, input.len() - 1);
    let head = parser.try_take_head().unwrap();
    assert_eq!(head.method().as_slice(), b"GET");
    assert_eq!(header_value(head.headers(), "Host").unwrap(), b"www.example.com");
}

#[test]
fn encode_owned_transport() {
    let head = ResponseHead::new(200, Version::Http11, Headers::new());
    assert_eq!(head.to_vec().unwrap(), b"HTTP/1.1 200 OK\r\n\r\n");
}

#[test]
fn encode_referenced_transport() {
    // the buffer driver delivers the same bytes in parts
    let head = ResponseHead::new(200, Version::Http11, Headers::new());
    let mut state = BufferWriteState::new(head.to_vec().unwrap());
    let mut sink: Vec<u8> = Vec::new();
    while !state.is_complete() {
        let pending = state.pending();
        let n = pending.len().min(3);
        sink.extend_from_slice(&pending[..n]);
        state.advance(n);
    }
    assert_eq!(sink, b"HTTP/1.1 200 OK\r\n\r\n");
}

#[test]
fn request_head_mod_test() {
    let head = request_head_parse(REQUEST_INPUT, 128).unwrap();
    check_request(&head);
    let mut encoded = head.to_vec().unwrap();
    assert_eq!(encoded, REQUEST_INPUT);
    encoded.clear();
}

const RESPONSE_INPUT: &[u8] = b"HTTP/1.1 200 OK\r\nconnection: close\r\n\r\n";

#[test]
fn response_head_mod_test() {
    let head = response_head_parse(RESPONSE_INPUT, 128).unwrap();
    assert_eq!(head.version(), Version::Http11);
    assert_eq!(head.status(), 200);
    assert_eq!(header_value(head.headers(), "Connection").unwrap(), b"close");
    assert_eq!(head.to_vec().unwrap(), RESPONSE_INPUT);
}

#[test]
fn response_head_test() {
    let input = b"HTTP/1.1 201 Created\r\nconnection: close\r\n\r\n";
    let mut parser = ResponseHeadParse::new(8192, 128);
    let mut pos = 0usize;
    parser.read_data(input, &mut pos).unwrap();
    let head = parser.try_take_head().unwrap();
    assert_eq!(head.version(), Version::Http11);
    assert_eq!(head.status(), 201);
    assert_eq!(header_value(head.headers(), "Connection").unwrap(), b"close");
    assert_eq!(head.to_vec().unwrap(), &input[..]);
}

#[test]
fn test_response_head_parse() {
    let input = b"HTTP/1.1 201 Created\r\nconnection: close\r\n\r\n";
    let mut parser = ResponseHeadParse::new(8096, 10);
    let mut pos = 0usize;
    let size = parser.read_data(input, &mut pos).unwrap();
    println!("{}", size);
    assert_eq!(size, input.len());
    let head = parser.try_take_head().unwrap();
    assert_eq!(head.status(), 201);
}

#[test]
fn status_line_mod_test() {
    let line = StatusLine::new(100, Version::Http11);
    assert_eq!(line.to_vec().unwrap(), b"HTTP/1.1 100 Continue\r\n");
    assert_eq!(line.status(), 100);
    assert_eq!(line.version(), Version::Http11);
}

#[test]
fn continue_head_round_trip() {
    // encoding a 100 response with no headers gives the exact wire bytes,
    // and decoding them gives the head back
    let head = ResponseHead::new(100, Version::Http11, Headers::new());
    let bytes = head.to_vec().unwrap();
    assert_eq!(bytes, b"HTTP/1.1 100 Continue\r\n\r\n");
    let parsed = response_head_parse(&bytes, 128).unwrap();
    assert_eq!(parsed.status(), 100);
    assert_eq!(parsed.headers().fields.len(), 0);
}

#[test]
fn reason_phrase_comes_from_the_status_table() {
    let line = StatusLine::new(404, Version::Http11);
    assert_eq!(line.to_vec().unwrap(), b"HTTP/1.1 404 Not Found\r\n");
    let line = StatusLine::new(503, Version::Http11);
    assert_eq!(line.to_vec().unwrap(), b"HTTP/1.1 503 Service Unavailable\r\n");
}

#[test]
fn parse_keeps_duplicate_headers_in_order() {
    let input = b"GET / HTTP/1.1\r\nHost: a\r\nHost: b\r\n\r\n";
    let head = request_head_parse(input, 128).unwrap();
    assert_eq!(head.method().as_slice(), b"GET");
    assert_eq!(head.uri().as_slice(), b"/");
    assert_eq!(head.headers().fields.len(), 2);
    assert_eq!(head.headers().fields[0].name, b"Host");
    assert_eq!(head.headers().fields[0].value, b"a");
    assert_eq!(head.headers().fields[1].name, b"Host");
    assert_eq!(head.headers().fields[1].value, b"b");
}

#[test]
fn parse_rejects_unsupported_version() {
    let input = b"GET / HTTP/1.0\r\n\r\n";
    assert_eq!(request_head_parse(input, 128).unwrap_err(), HeadError::UnsupportedVersion);
    let input = b"HTTP/2.0 200 OK\r\n\r\n";
    assert_eq!(response_head_parse(input, 128).unwrap_err(), HeadError::UnsupportedVersion);
}

#[test]
fn parse_rejects_malformed_heads() {
    assert_eq!(request_head_parse(b"GET /\r\n\r\n", 128).unwrap_err(), HeadError::MalformedHead);
    assert_eq!(request_head_parse(b"nonsense", 128).unwrap_err(), HeadError::MalformedHead);
    assert_eq!(
        request_head_parse(b"GET / HTTP/1.1\r\nbad line\r\n\r\n", 128).unwrap_err(),
        HeadError::MalformedHead
    );
    assert_eq!(
        request_head_parse(b"GET / HTTP/1.1\r\n\r\ntrailing", 128).unwrap_err(),
        HeadError::MalformedHead
    );
    assert_eq!(response_head_parse(b"FOO 200 OK\r\n\r\n", 128).unwrap_err(), HeadError::MalformedHead);
}

#[test]
fn parse_enforces_the_header_count_limit() {
    let input = b"GET / HTTP/1.1\r\nA: 1\r\nB: 2\r\n\r\n";
    assert!(request_head_parse(input, 2).is_ok());
    assert_eq!(request_head_parse(input, 1).unwrap_err(), HeadError::MalformedHead);
}

#[test]
fn accumulator_enforces_the_size_limit() {
    let input = b"GET / HTTP/1.1\r\nhost: www.example.com\r\n\r\n";
    let mut parser = RequestHeadParse::new(10, 128);
    let mut pos = 0usize;
    assert_eq!(parser.read_data(input, &mut pos).unwrap_err(), HeadError::HeadTooLarge);
}

#[test]
fn encode_rejects_invalid_header_values() {
    let mut headers = Headers::new();
    headers.append(b"X-Test".to_vec(), b"bad\x01byte".to_vec());
    let head = RequestHead::new(b"GET".to_vec(), b"/".to_vec(), Version::Http11, headers);
    assert_eq!(head.to_vec().unwrap_err(), HeadError::InvalidHeaderValue);

    let mut headers = Headers::new();
    headers.append(b"Bad Name".to_vec(), b"v".to_vec());
    let head = RequestHead::new(b"GET".to_vec(), b"/".to_vec(), Version::Http11, headers);
    assert_eq!(head.to_vec().unwrap_err(), HeadError::MalformedHead);
}

#[test]
fn framing_from_headers() {
    let mut h = Headers::new();
    h.append(b"Transfer-Encoding".to_vec(), b"chunked".to_vec());
    assert_eq!(length_from_headers(&h).unwrap(), None);

    let mut h = Headers::new();
    h.append(b"content-length".to_vec(), b"42".to_vec());
    assert_eq!(length_from_headers(&h).unwrap(), Some(42));

    let h = Headers::new();
    assert_eq!(length_from_headers(&h).unwrap(), Some(0));

    let mut h = Headers::new();
    h.append(b"Transfer-Encoding".to_vec(), b"gzip".to_vec());
    assert_eq!(length_from_headers(&h).unwrap_err(), FramingError::UnsupportedTransferEncoding);

    let mut h = Headers::new();
    h.append(b"Content-Length".to_vec(), b"4x2".to_vec());
    assert_eq!(length_from_headers(&h).unwrap_err(), FramingError::InvalidContentLength);

    let mut h = Headers::new();
    h.append(b"Content-Length".to_vec(), b"99999999999999999999".to_vec());
    assert_eq!(length_from_headers(&h).unwrap_err(), FramingError::InvalidContentLength);

    let mut h = Headers::new();
    h.append(b"Transfer-Encoding".to_vec(), b"chunked".to_vec());
    h.append(b"Content-Length".to_vec(), b"5".to_vec());
    assert_eq!(length_from_headers(&h).unwrap_err(), FramingError::ConflictingFraming);
}

#[test]
fn head_parse_of_simple_get() {
    // method, target, version, and one header survive the parse
    let head = request_head_parse(b"GET / HTTP/1.1\r\nHost: a\r\n\r\n", 128).unwrap();
    assert_eq!(head.method().as_slice(), b"GET");
    assert_eq!(head.uri().as_slice(), b"/");
    assert_eq!(head.version(), Version::Http11);
    assert_eq!(head.headers().fields.len(), 1);
    assert_eq!(head.headers().fields[0].name, b"Host");
    assert_eq!(head.headers().fields[0].value, b"a");
}

#[test]
fn parse_skips_whitespace_after_the_colon() {
    let head = request_head_parse(b"GET / HTTP/1.1\r\nX-A:   spaced\r\nX-B:\r\n\r\n", 128).unwrap();
    assert_eq!(head.headers().fields[0].value, b"spaced");
    assert_eq!(head.headers().fields[1].value, b"");
}

#[test]
fn response_status_line_without_reason() {
    let head = response_head_parse(b"HTTP/1.1 204\r\n\r\n", 128).unwrap();
    assert_eq!(head.status(), 204);
}

#[test]
fn response_rejects_status_below_100() {
    assert_eq!(
        response_head_parse(b"HTTP/1.1 099 Odd\r\n\r\n", 128).unwrap_err(),
        HeadError::MalformedHead
    );
}
