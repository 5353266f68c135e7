//! Length-prefixed framing: encoding, incremental decoding, recovery.

use lsp_core::framer::{encode_frame, FrameDecoder};

#[test]
fn encode_frame_exact_bytes() {
    let frame = encode_frame(&b"{}".to_vec());
    assert_eq!(frame, b"Content-Length: 2\r\n\r\n{}".to_vec());
}

#[test]
fn encode_frame_empty_body() {
    let frame = encode_frame(&Vec::new());
    assert_eq!(frame, b"Content-Length: 0\r\n\r\n".to_vec());
}

#[test]
fn decode_one_frame_in_one_chunk() {
    let body = b"{\"x\":1}".to_vec();
    let frame = encode_frame(&body);
    let mut d = FrameDecoder::new();
    let (msgs, errs) = d.feed(&frame);
    assert_eq!(errs, 0);
    assert_eq!(msgs, vec![body]);
}

#[test]
fn decode_is_chunk_boundary_independent() {
    // the body holds raw newline and carriage-return bytes on purpose
    let body = b"line one\nline two\r\nbrace } quote \"".to_vec();
    let frame = encode_frame(&body);
    // split the frame at every possible boundary
    for cut in 0..=frame.len() {
        let mut d = FrameDecoder::new();
        let (mut msgs, errs1) = d.feed(&frame[..cut]);
        let (more, errs2) = d.feed(&frame[cut..]);
        msgs.extend(more);
        assert_eq!(errs1 + errs2, 0, "cut at {cut}");
        assert_eq!(msgs, vec![body.clone()], "cut at {cut}");
    }
}

#[test]
fn decode_byte_by_byte() {
    let body = b"payload with\nnewline".to_vec();
    let frame = encode_frame(&body);
    let mut d = FrameDecoder::new();
    let mut msgs = Vec::new();
    let mut errs = 0;
    for b in &frame {
        let (m, e) = d.feed(std::slice::from_ref(b));
        msgs.extend(m);
        errs += e;
    }
    assert_eq!(errs, 0);
    assert_eq!(msgs, vec![body]);
}

#[test]
fn decode_two_frames_in_one_chunk() {
    let a = b"first".to_vec();
    let b = b"second body".to_vec();
    let mut stream = encode_frame(&a);
    stream.extend(encode_frame(&b));
    let mut d = FrameDecoder::new();
    let (msgs, errs) = d.feed(&stream);
    assert_eq!(errs, 0);
    assert_eq!(msgs, vec![a, b]);
}

#[test]
fn malformed_header_is_reported_and_decoder_resyncs() {
    let mut stream = b"Bogus-Header: nonsense\r\n".to_vec();
    let body = b"ok".to_vec();
    stream.extend(encode_frame(&body));
    let mut d = FrameDecoder::new();
    let (msgs, errs) = d.feed(&stream);
    assert_eq!(errs, 1);
    assert_eq!(msgs, vec![body]);
}

#[test]
fn blank_line_without_length_is_one_error() {
    let mut d = FrameDecoder::new();
    let (msgs, errs) = d.feed(b"\r\n");
    assert_eq!(errs, 1);
    assert!(msgs.is_empty());
}

#[test]
fn header_number_may_be_padded_with_spaces() {
    let mut stream = b"Content-Length:   5  \r\n\r\nhello".to_vec();
    stream.extend(encode_frame(&b"next".to_vec()));
    let mut d = FrameDecoder::new();
    let (msgs, errs) = d.feed(&stream);
    assert_eq!(errs, 0);
    assert_eq!(msgs, vec![b"hello".to_vec(), b"next".to_vec()]);
}

#[test]
fn oversized_length_is_malformed() {
    let mut d = FrameDecoder::new();
    let (msgs, errs) = d.feed(b"Content-Length: 99999999999999999999999999\r\n");
    assert_eq!(errs, 1);
    assert!(msgs.is_empty());
}

#[test]
fn zero_length_frame_yields_empty_payload() {
    let mut d = FrameDecoder::new();
    let (msgs, errs) = d.feed(b"Content-Length: 0\r\n\r\n");
    assert_eq!(errs, 0);
    assert_eq!(msgs, vec![Vec::<u8>::new()]);
}
