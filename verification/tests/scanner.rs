use http_codec::buffer_write::BufferWriteState;
use http_codec::terminator::TerminatorOverlap;

/// Feeds `input` to the scanner in chunks of at most `step` bytes, always
/// respecting `remaining()`, and returns how many bytes were consumed when
/// the terminator completed.
fn scan(term: &[u8], input: &[u8], step: usize) -> Option<usize> {
    let mut scanner = TerminatorOverlap::new(term);
    let mut pos = 0usize;
    while !scanner.done() {
        if pos == input.len() {
            return None;
        }
        let cap = scanner.max_read_buf(step);
        let chunk = cap.min(input.len() - pos);
        scanner.process(&input[pos..pos + chunk]);
        pos += chunk;
    }
    Some(pos)
}

#[test]
fn terminator_with_adversarial_overlap() {
    // the partial match \r must not hide the real terminator
    assert_eq!(scan(b"\r\n\r\n", b"\r\r\n\r\n", 4), Some(5));
    assert_eq!(scan(b"\r\n\r\n", b"\r\r\n\r\n", 1), Some(5));
    assert_eq!(scan(b"\r\n\r\n", b"\r\r\n\r\n", 2), Some(5));
}

#[test]
fn terminator_fragmentations() {
    let input = b"abc\r\nde\r\n\r\nrest";
    for step in 1..=4 {
        assert_eq!(scan(b"\r\n\r\n", input, step), Some(11), "step {}", step);
    }
    assert_eq!(scan(b"\r\n\r\n", b"no terminator here", 4), None);
}

#[test]
fn terminator_never_requests_past_the_match() {
    let mut scanner = TerminatorOverlap::new(b"\r\n\r\n");
    assert_eq!(scanner.remaining(), 4);
    scanner.process(b"xy\r\n");
    // two bytes of the terminator already matched
    assert_eq!(scanner.remaining(), 2);
    assert_eq!(scanner.max_read_buf(100), 2);
    scanner.process(b"\r\n");
    assert!(scanner.done());
    assert_eq!(scanner.remaining(), 0);
    assert_eq!(scanner.max_read_buf(100), 0);
}

#[test]
fn buffer_write_test() {
    const HELLO_WORLD: &[u8] = b"Hello World!";
    let mut state = BufferWriteState::new(HELLO_WORLD.to_vec());
    let mut sink: Vec<u8> = Vec::new();
    // the transport accepts a few bytes per attempt
    while !state.is_complete() {
        let pending = state.pending();
        let n = pending.len().min(5);
        sink.extend_from_slice(&pending[..n]);
        state.advance(n);
    }
    assert_eq!(sink, HELLO_WORLD);
}
