//! Tests of the frame codec: round trips, incremental delivery, byte-exact
//! lengths, and the fatal desync errors.

use prover_bridge::codec::{frame, parse_message, ParseError};
use prover_bridge::conn::RecvBuffer;

#[test]
fn frame_exact_bytes() {
    let payload = b"{\"a\":1}";
    let framed = frame(payload);
    assert_eq!(framed, b"Content-Length: 7\r\n\r\n{\"a\":1}");
}

#[test]
fn frame_empty_payload() {
    let framed = frame(b"");
    assert_eq!(framed, b"Content-Length: 0\r\n\r\n");
}

#[test]
fn frame_round_trip() {
    let payload = b"{\"jsonrpc\":\"2.0\",\"id\":3,\"result\":[1,2,3]}";
    let framed = frame(payload);
    let (got, consumed) = parse_message(&framed).expect("whole frame must parse");
    assert_eq!(got, payload.to_vec());
    assert_eq!(consumed, framed.len());
}

#[test]
fn every_strict_prefix_needs_more_data() {
    let payload = b"{\"x\":[true,false,null]}";
    let framed = frame(payload);
    for cut in 0..framed.len() {
        match parse_message(&framed[..cut]) {
            Err(ParseError::NeedMoreData) => {}
            other => panic!("prefix of {} bytes did not ask for more data: {:?}", cut, other.is_ok()),
        }
    }
}

#[test]
fn byte_length_counts_bytes_not_chars() {
    // 10 characters but 11 bytes: the length must count bytes.
    let text = "{\"x\": \"\u{e9}\"}";
    assert_eq!(text.chars().count(), 10);
    let payload = text.as_bytes();
    assert_eq!(payload.len(), 11);
    let framed = frame(payload);
    assert!(framed.starts_with(b"Content-Length: 11\r\n\r\n"));
    let (got, _) = parse_message(&framed).expect("frame must parse");
    assert_eq!(String::from_utf8(got).unwrap(), text);
}

#[test]
fn two_frames_parse_in_order() {
    let p1 = b"{\"id\":1}";
    let p2 = b"{\"id\":2}";
    let mut bytes = frame(p1);
    bytes.extend_from_slice(&frame(p2));
    let (got1, c1) = parse_message(&bytes).expect("first frame must parse");
    assert_eq!(got1, p1.to_vec());
    let (got2, c2) = parse_message(&bytes[c1..]).expect("second frame must parse");
    assert_eq!(got2, p2.to_vec());
    assert_eq!(c1 + c2, bytes.len());
}

#[test]
fn split_feed_matches_single_read() {
    // One frame fed in two pieces, at every split point, decodes identically.
    let payload = b"{\"ok\":true}";
    let framed = frame(payload);
    for cut in 0..framed.len() {
        let mut buf = RecvBuffer::new();
        buf.feed(&framed[..cut]);
        match buf.try_carve() {
            Ok(None) => {}
            other => panic!("partial frame carved at cut {}: {:?}", cut, other.is_ok()),
        }
        buf.feed(&framed[cut..]);
        match buf.try_carve() {
            Ok(Some(got)) => assert_eq!(got, payload.to_vec()),
            _ => panic!("whole frame did not carve at cut {}", cut),
        }
    }
}

#[test]
fn drain_two_frames_from_one_feed() {
    let p1 = b"{\"n\":1}";
    let p2 = b"{\"n\":2}";
    let mut bytes = frame(p1);
    bytes.extend_from_slice(&frame(p2));
    let mut buf = RecvBuffer::new();
    buf.feed(&bytes);
    match buf.try_carve() {
        Ok(Some(got)) => assert_eq!(got, p1.to_vec()),
        _ => panic!("first frame did not carve"),
    }
    // The second frame must come out of the same feed, with no further bytes.
    match buf.try_carve() {
        Ok(Some(got)) => assert_eq!(got, p2.to_vec()),
        _ => panic!("second frame did not carve without another read"),
    }
    match buf.try_carve() {
        Ok(None) => {}
        _ => panic!("an empty buffer must ask for more data"),
    }
}

#[test]
fn corrupted_header_is_fatal_desync() {
    let bytes = b"Content-Type: 5\r\n\r\nhello";
    match parse_message(bytes) {
        Err(ParseError::UnexpectedToken { expected, found }) => {
            assert_eq!(expected, b"Content-Length: ".to_vec());
            assert_eq!(found, bytes.to_vec());
        }
        _ => panic!("corrupted header must be a desync error"),
    }
}

#[test]
fn missing_length_digits_are_fatal() {
    match parse_message(b"Content-Length: \r\n\r\n") {
        Err(ParseError::InvalidInt) => {}
        _ => panic!("an empty digit run must be an integer error"),
    }
}

#[test]
fn oversized_length_is_fatal() {
    match parse_message(b"Content-Length: 99999999999999999999999999\r\n\r\n") {
        Err(ParseError::InvalidInt) => {}
        _ => panic!("a length over usize::MAX must be an integer error"),
    }
}

#[test]
fn large_length_parses() {
    let payload = vec![b'x'; 300];
    let framed = frame(&payload);
    assert!(framed.starts_with(b"Content-Length: 300\r\n\r\n"));
    let (got, consumed) = parse_message(&framed).expect("frame must parse");
    assert_eq!(got, payload);
    assert_eq!(consumed, framed.len());
}

#[test]
fn leading_zeros_in_length_are_accepted() {
    let (got, consumed) = parse_message(b"Content-Length: 007\r\n\r\nabcdefg")
        .expect("leading zeros read as the same number");
    assert_eq!(got, b"abcdefg".to_vec());
    assert_eq!(consumed, b"Content-Length: 007\r\n\r\nabcdefg".len());
}

#[test]
fn digits_stop_at_the_first_non_digit() {
    // The digit run ends at 'x'; the terminator literal is then missing.
    match parse_message(b"Content-Length: 3x\r\n\r\nabc") {
        Err(ParseError::UnexpectedToken { expected, found }) => {
            assert_eq!(expected, b"\r\n\r\n".to_vec());
            assert_eq!(found, b"x\r\n\r\nabc".to_vec());
        }
        _ => panic!("a missing terminator must be a desync error"),
    }
}
