use http_codec::body_decode::BodyDecodeState;
use http_codec::body_encode::BodyEncodeState;
use http_codec::body_parse::BodyParseChunked;
use http_codec::errors::DecodeError;
use http_codec::errors::EncodeError;
use http_codec::headers::Headers;

const CHUNKED: &[u8] = b"6\r\nhello \r\n13\r\nworld! hello world!\r\n0\r\n\r\n";
const CHUNKED_ONE_LINE: &[u8] = b"6\r\nhello \r\n0\r\n\r\n";
const CHUNKED_TWO_LINES: &[u8] = b"6\r\nhello \r\n13\r\nworld! hello world!\r\n0\r\n\r\n";
const CHUNKED_THREE_LINES: &[u8] =
    b"6\r\nhello \r\n13\r\nworld! hello world!\r\n17\r\nworld! hello world!bla.\r\n0\r\n\r\n";
const CHUNKED_ARRAY: [&[u8]; 3] = [CHUNKED_ONE_LINE, CHUNKED_TWO_LINES, CHUNKED_THREE_LINES];
const DECODED_ONE_LINE: &str = "hello ";
const DECODED_TWO_LINES: &str = "hello world! hello world!";
const DECODED_THREE_LINES: &str = "hello world! hello world!world! hello world!bla.";
const DECODED_ARRAY: [&str; 3] = [DECODED_ONE_LINE, DECODED_TWO_LINES, DECODED_THREE_LINES];
const DECODED: &[u8] = b"hello world! hello world!";
const CHUNKED_PARTS: [&[u8]; 2] = [b"hello ", b"world! hello world!"];

/// Drives a body decoder over `wire` with a read buffer of `buf_size`
/// bytes, the way a transport loop would: reading at most `read_hint`
/// bytes at a time, and reporting end of input.
fn decode_all(
    dec: &mut BodyDecodeState,
    wire: &[u8],
    buf_size: usize,
) -> Result<(Vec<u8>, usize), DecodeError> {
    let mut out = Vec::new();
    let mut pos = 0usize;
    loop {
        if dec.is_done() {
            return Ok((out, pos));
        }
        let hint = dec.read_hint(buf_size);
        let take = hint.min(wire.len() - pos);
        if take == 0 {
            dec.on_eof()?;
            return Ok((out, pos));
        }
        dec.advance(&wire[pos..pos + take], &mut out)?;
        pos += take;
    }
}

/// Drives the chunked encoder over one write, delivering all wire bytes.
fn encode_write_all(enc: &mut BodyEncodeState, mut part: &[u8], wire: &mut Vec<u8>) {
    while !part.is_empty() {
        let (n, w) = enc.write(part).unwrap();
        wire.extend_from_slice(&w);
        part = &part[n..];
        if n == 0 {
            panic!("encoder accepted no bytes");
        }
    }
}

fn body_parse_chunked_decode_length(read_length: usize, out_length: usize, array_index: usize) {
    let mut parser = BodyParseChunked::new();
    let content: &[u8] = CHUNKED_ARRAY[array_index];
    let expected = DECODED_ARRAY[array_index].as_bytes();
    let mut bytes_read = 0usize;
    let mut pos = 0usize;
    while !parser.is_finished() {
        // feed at most `read_length` input bytes per round, collecting at
        // most `out_length` output bytes per round
        let end = (pos + read_length).min(content.len());
        let mut out = Vec::new();
        let mut inner = 0usize;
        let next_bytes = parser
            .process_data(&content[pos..end], &mut inner, &mut out, out_length)
            .unwrap();
        pos += inner;
        assert_eq!(&out[..next_bytes], &expected[bytes_read..bytes_read + next_bytes]);
        bytes_read += next_bytes;
    }
    assert_eq!(bytes_read, expected.len());
}

#[test]
fn body_parse_chunked_decode() {
    for i in 0..3 {
        body_parse_chunked_decode_length(3, 5, i);
        body_parse_chunked_decode_length(3, 10, i);
        body_parse_chunked_decode_length(100, 5, i);
        body_parse_chunked_decode_length(100, 100, i);
    }
}

#[test]
fn decode_chunked() {
    let mut dec = BodyDecodeState::new(None);
    let (out, _) = decode_all(&mut dec, CHUNKED, 4096).unwrap();
    assert_eq!(out, DECODED);
    assert!(dec.is_done());
}

#[test]
fn decode_fixed_length() {
    const LENGTH: u64 = 10;
    let mut dec = BodyDecodeState::new(Some(LENGTH));
    let (out, _) = decode_all(&mut dec, DECODED, 4096).unwrap();
    assert_eq!(out, &DECODED[..LENGTH as usize]);
    assert!(dec.is_done());
}

#[test]
fn decode_empty() {
    let mut dec = BodyDecodeState::new(Some(0));
    let (out, _) = decode_all(&mut dec, b"", 4096).unwrap();
    assert_eq!(out, b"");
    assert!(dec.is_done());
}

#[test]
fn encode_chunked_flush() {
    let mut enc = BodyEncodeState::new(None);
    let mut wire = Vec::new();
    for part in CHUNKED_PARTS {
        encode_write_all(&mut enc, part, &mut wire);
        wire.extend_from_slice(&enc.flush().unwrap());
    }
    wire.extend_from_slice(&enc.close().unwrap());
    assert_eq!(wire, CHUNKED);
}

#[test]
fn encode_chunked_long() {
    let input: Vec<u8> = (0..1500u32).map(|i| (i.wrapping_mul(31).wrapping_add(7)) as u8).collect();
    let mut enc = BodyEncodeState::new(None);
    let mut wire = Vec::new();
    encode_write_all(&mut enc, &input, &mut wire);
    wire.extend_from_slice(&enc.close().unwrap());

    let mut dec = BodyDecodeState::new(None);
    let (out, consumed) = decode_all(&mut dec, &wire, 4096).unwrap();
    assert_eq!(out, input);
    assert_eq!(consumed, wire.len());
    assert!(dec.is_done());
}

#[test]
fn chunked_round_trip_many_buffer_sizes() {
    let payload: Vec<u8> = (0..257u32).map(|i| (i.wrapping_mul(13).wrapping_add(5)) as u8).collect();
    // many tiny writes
    let mut enc = BodyEncodeState::new(None);
    let mut wire = Vec::new();
    for b in &payload {
        encode_write_all(&mut enc, &[*b], &mut wire);
    }
    wire.extend_from_slice(&enc.close().unwrap());
    for buf_size in [1usize, 3, 5, 4096] {
        let mut dec = BodyDecodeState::new(None);
        let (out, _) = decode_all(&mut dec, &wire, buf_size).unwrap();
        assert_eq!(out, payload, "buffer size {}", buf_size);
        assert!(dec.is_done());
    }
}

#[test]
fn fixed_decode_never_reads_past_length() {
    // the transport has more bytes buffered than the declared length
    let wire = b"helloEXTRA";
    let mut dec = BodyDecodeState::new(Some(5));
    assert_eq!(dec.read_hint(4096), 5);
    let (out, consumed) = decode_all(&mut dec, wire, 4096).unwrap();
    assert_eq!(out, b"hello");
    assert_eq!(consumed, 5);
    assert!(dec.is_done());
    assert_eq!(dec.read_hint(4096), 0);
}

#[test]
fn fixed_decode_truncated_body() {
    let mut dec = BodyDecodeState::new(Some(10));
    let err = decode_all(&mut dec, b"hello", 4096).unwrap_err();
    assert_eq!(err, DecodeError::TruncatedBody);
    assert!(dec.is_failed());
    // the failure is sticky
    let mut out = Vec::new();
    assert_eq!(dec.advance(b"", &mut out), Err(DecodeError::BrokenPipe));
}

#[test]
fn chunked_decode_zero_chunk_is_done() {
    let mut dec = BodyDecodeState::new(None);
    let (out, consumed) = decode_all(&mut dec, b"0\r\n\r\n", 4096).unwrap();
    assert_eq!(out, b"");
    assert_eq!(consumed, 5);
    assert!(dec.is_done());
}

#[test]
fn chunked_decode_rejects_bad_size_digit() {
    let mut dec = BodyDecodeState::new(None);
    let err = decode_all(&mut dec, b"g\r\nxxx\r\n", 4096).unwrap_err();
    assert_eq!(err, DecodeError::MalformedChunk);
    assert!(dec.is_failed());
}

#[test]
fn chunked_decode_rejects_bad_terminator() {
    let mut dec = BodyDecodeState::new(None);
    // chunk content not followed by CRLF
    let err = decode_all(&mut dec, b"1\r\nxZZ", 4096).unwrap_err();
    assert_eq!(err, DecodeError::MalformedChunk);
}

#[test]
fn chunked_decode_truncated_mid_chunk() {
    let mut dec = BodyDecodeState::new(None);
    let err = decode_all(&mut dec, b"5\r\nab", 4096).unwrap_err();
    assert_eq!(err, DecodeError::TruncatedBody);
}

#[test]
fn chunked_decode_lowercase_hex() {
    let mut dec = BodyDecodeState::new(None);
    let (out, _) = decode_all(&mut dec, b"a\r\n0123456789\r\n0\r\n\r\n", 4096).unwrap();
    assert_eq!(out, b"0123456789");
}

#[test]
fn chunk_size_hex_is_upper_case() {
    // 255 content bytes frame as FF, upper case
    let payload = [b'x'; 255];
    let mut enc = BodyEncodeState::new(None);
    let mut wire = Vec::new();
    encode_write_all(&mut enc, &payload, &mut wire);
    wire.extend_from_slice(&enc.flush().unwrap());
    assert_eq!(&wire[..4], b"FF\r\n");
    assert_eq!(&wire[4..259], &payload[..]);
    assert_eq!(&wire[259..], b"\r\n");
}

#[test]
fn fixed_encode_passes_through_and_overflows() {
    let mut enc = BodyEncodeState::new(Some(5));
    let (n, w) = enc.write(b"hello world").unwrap();
    assert_eq!(n, 5);
    assert_eq!(w, b"hello");
    // the declared length is used up: writing more is an overflow
    let err = enc.write(b"x").unwrap_err();
    assert_eq!(err, EncodeError::BodyOverflow);
    // overflow is fatal
    assert_eq!(enc.write(b""), Err(EncodeError::BrokenPipe));
}

#[test]
fn fixed_encode_close_then_write_fails() {
    let mut enc = BodyEncodeState::new(Some(5));
    assert_eq!(enc.close().unwrap(), b"");
    assert_eq!(enc.write(b"x"), Err(EncodeError::BrokenPipe));
    // close is idempotent
    assert_eq!(enc.close().unwrap(), b"");
}

#[test]
fn chunked_encode_write_after_close_is_invalid() {
    let mut enc = BodyEncodeState::new(None);
    let wire = enc.close().unwrap();
    assert_eq!(wire, b"0\r\n\r\n");
    assert_eq!(enc.write(b"x"), Err(EncodeError::InvalidData));
    // a second close emits nothing more
    assert_eq!(enc.close().unwrap(), b"");
}

#[test]
fn chunked_flush_of_empty_stage_is_empty() {
    let mut enc = BodyEncodeState::new(None);
    assert_eq!(enc.flush().unwrap(), b"");
}

#[test]
fn decoder_from_headers() {
    let mut h = Headers::new();
    h.append(b"Transfer-Encoding".to_vec(), b"chunked".to_vec());
    let dec = BodyDecodeState::from_headers(&h).unwrap();
    assert!(!dec.is_done());

    let mut h = Headers::new();
    h.append(b"Content-Length".to_vec(), b"42".to_vec());
    let dec = BodyDecodeState::from_headers(&h).unwrap();
    assert_eq!(dec.bytes_remaining(), 42);

    let h = Headers::new();
    let dec = BodyDecodeState::from_headers(&h).unwrap();
    assert!(dec.is_done());
}

#[test]
fn guaranteed_read_tracks_state() {
    let mut parser = BodyParseChunked::new();
    assert_eq!(parser.guaranteed_read(), 3);
    assert!(!parser.is_finished());
    let mut out = Vec::new();
    let mut pos = 0usize;
    parser.process_data(b"6\r\n", &mut pos, &mut out, 100).unwrap();
    // inside the six-byte chunk content now
    assert_eq!(parser.guaranteed_read(), 4);
    let mut pos1 = 0usize;
    parser.process_data(b"hello ", &mut pos1, &mut out, 100).unwrap();
    assert_eq!(out, b"hello ");
    assert_eq!(parser.guaranteed_read(), 2);
    let mut pos2 = 0usize;
    parser.process_data(b"\r\n0\r\n\r\n", &mut pos2, &mut out, 100).unwrap();
    assert!(parser.is_finished());
    assert_eq!(parser.guaranteed_read(), 0);
}

#[test]
fn done_decoder_stays_done() {
    let mut dec = BodyDecodeState::new(Some(0));
    assert!(dec.is_done());
    let mut out = Vec::new();
    assert_eq!(dec.advance(b"", &mut out), Ok(()));
    assert!(out.is_empty());
    assert!(dec.is_done());
    assert_eq!(dec.on_eof(), Ok(()));
}

#[test]
fn chunked_encode_emits_on_full_stage() {
    // exactly one full chunk of 1293 content bytes comes out framed at once
    let payload = vec![b'y'; 1293];
    let mut enc = BodyEncodeState::new(None);
    let (n, wire) = enc.write(&payload).unwrap();
    assert_eq!(n, 1293);
    assert_eq!(&wire[..5], b"50D\r\n");
    assert_eq!(&wire[5..1298], &payload[..]);
    assert_eq!(&wire[1298..], b"\r\n");
    // nothing is left staged
    assert_eq!(enc.flush().unwrap(), b"");
}
