use yci::net::{frame_payload, parse_frame, StreamingBuffer, StreamingBufferError};

#[test]
fn frame_and_parse_round_trip() {
    let payload: Vec<u8> = b"{\"Ok\":[]}".to_vec();
    let frame = frame_payload(&payload).unwrap();
    assert_eq!(frame[0] as usize + 256 * frame[1] as usize, payload.len());
    let (parsed, consumed) = parse_frame(&frame).unwrap();
    assert_eq!(parsed, payload);
    assert_eq!(consumed, frame.len());
}

#[test]
fn parse_waits_for_missing_bytes() {
    assert_eq!(parse_frame(&vec![]), None);
    assert_eq!(parse_frame(&vec![5u8]), None);
    // length says five bytes, only three arrived
    assert_eq!(parse_frame(&vec![5u8, 0, 1, 2, 3]), None);
}

#[test]
fn parse_leaves_the_tail() {
    // a two-byte payload followed by one stray byte
    let buf: Vec<u8> = vec![2, 0, 0xAA, 0xBB, 0xCC];
    let (payload, consumed) = parse_frame(&buf).unwrap();
    assert_eq!(payload, vec![0xAA, 0xBB]);
    assert_eq!(consumed, 4);
}

#[test]
fn oversize_payload_is_refused() {
    let big = vec![0u8; 65536];
    assert_eq!(frame_payload(&big), None);
    let edge = vec![0u8; 65535];
    assert!(frame_payload(&edge).is_some());
}

#[test]
fn test_streaming_buffer() {
    let mut sb = StreamingBuffer::new(64);
    assert_eq!(sb.try_read(), Err(StreamingBufferError::ShouldWait));

    let payload: Vec<u8> = b"hello frames".to_vec();
    let frame = frame_payload(&payload).unwrap();

    // the frame arrives split across two reads
    let (a, b) = frame.split_at(5);
    sb.feed(&a.to_vec()).unwrap();
    assert_eq!(sb.try_read(), Err(StreamingBufferError::ShouldWait));
    sb.feed(&b.to_vec()).unwrap();
    assert_eq!(sb.try_read(), Ok(payload.clone()));
    assert_eq!(sb.try_read(), Err(StreamingBufferError::ShouldWait));

    // two frames in one read come out one at a time
    let p1: Vec<u8> = vec![1, 2, 3];
    let p2: Vec<u8> = vec![9];
    let mut both = frame_payload(&p1).unwrap();
    both.extend(frame_payload(&p2).unwrap());
    sb.feed(&both).unwrap();
    assert_eq!(sb.try_read(), Ok(p1));
    assert_eq!(sb.try_read(), Ok(p2));
}

#[test]
fn streaming_buffer_overflow() {
    let mut sb = StreamingBuffer::new(4);
    assert_eq!(
        sb.feed(&vec![0u8; 5]),
        Err(StreamingBufferError::BufferOverflow)
    );
    // a partial frame that fills the buffer can never complete
    sb.feed(&vec![9u8, 0, 1, 2]).unwrap();
    assert_eq!(sb.try_read(), Err(StreamingBufferError::BufferOverflow));
}
