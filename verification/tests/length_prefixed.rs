use tcp::length::{length_prefix, parse_length, MAX_CONTENT_LENGTH};
use tcp::{
    decode_len, encode_len, FrameError, FrameReceiver, LengthReceiver, MemoryStream,
    SocketRecvTrait, SocketSendTrait, CONTENT_LENGTH_SIZE,
};

fn frame_of(declared: [u8; 4], payload: &[u8]) -> Vec<u8> {
    let mut frame = declared.to_vec();
    frame.extend_from_slice(payload);
    frame
}

#[test]
fn header_is_four_bytes_big_endian() {
    assert_eq!(CONTENT_LENGTH_SIZE, 4);
    assert_eq!(length_prefix(0), Ok(vec![0, 0, 0, 0]));
    assert_eq!(length_prefix(26), Ok(vec![0, 0, 0, 26]));
    assert_eq!(length_prefix(1024), Ok(vec![0, 0, 4, 0]));
    assert_eq!(length_prefix(0x0102_0304), Ok(vec![1, 2, 3, 4]));
    assert_eq!(length_prefix(0x7fff_ffff), Ok(vec![0x7f, 0xff, 0xff, 0xff]));
}

#[test]
fn header_refuses_what_a_signed_integer_cannot_hold() {
    assert_eq!(MAX_CONTENT_LENGTH, i32::MAX as usize);
    assert_eq!(length_prefix(MAX_CONTENT_LENGTH + 1), Err(FrameError::InvalidLength));
    assert_eq!(length_prefix(usize::MAX), Err(FrameError::InvalidLength));
}

#[test]
fn header_parses_as_signed_big_endian() {
    assert_eq!(parse_length(&[0, 0, 0, 0]), Ok(0));
    assert_eq!(parse_length(&[0, 0, 0, 26]), Ok(26));
    assert_eq!(parse_length(&[0, 0, 1, 0]), Ok(256));
    assert_eq!(parse_length(&[1, 2, 3, 4]), Ok(0x0102_0304));
    assert_eq!(parse_length(&[0x7f, 0xff, 0xff, 0xff]), Ok(i32::MAX as usize));
    assert_eq!(parse_length(&[0x80, 0, 0, 0]), Err(FrameError::InvalidLength));
    assert_eq!(parse_length(&[0xff, 0xff, 0xff, 0xff]), Err(FrameError::InvalidLength));
}

#[test]
fn header_agrees_with_the_standard_conversion() {
    for len in [0usize, 1, 255, 256, 65_535, 65_536, 1_000_000, 0x7fff_ffff] {
        let expected = (len as i32).to_be_bytes().to_vec();
        assert_eq!(length_prefix(len), Ok(expected.clone()));
        assert_eq!(parse_length(&expected), Ok(len));
    }
}

#[test]
fn frame_is_header_then_payload() {
    let frame = encode_len("abcdefghijklmnopqrstuvwxyz").unwrap();
    assert_eq!(frame.len(), 30);
    assert_eq!(&frame[..4], &[0, 0, 0, 26]);
    assert_eq!(&frame[4..], b"abcdefghijklmnopqrstuvwxyz");
    assert_eq!(encode_len(""), Ok(vec![0, 0, 0, 0]));
}

#[test]
fn frame_counts_bytes_not_characters() {
    let frame = encode_len("h\u{e9}llo \u{4e16}\u{754c}").unwrap();
    assert_eq!(&frame[..4], &[0, 0, 0, 13]);
    assert_eq!(frame.len(), 17);
}

#[test]
fn length_round_trip_of_the_empty_message() {
    let frame = encode_len("").unwrap();
    assert_eq!(decode_len(&frame), Ok(String::new()));
}

#[test]
fn length_round_trip_of_a_short_message() {
    let frame = encode_len("hello").unwrap();
    assert_eq!(decode_len(&frame), Ok("hello".to_string()));
}

#[test]
fn length_round_trip_of_more_than_one_chunk() {
    let msg: String = (0..5000).map(|i| char::from(b'a' + (i % 26) as u8)).collect();
    let frame = encode_len(&msg).unwrap();
    assert_eq!(frame.len(), 5004);
    assert_eq!(decode_len(&frame), Ok(msg));
}

#[test]
fn length_round_trip_of_text_beyond_ascii() {
    let msg = "\u{6d4b}\u{8bd5}\u{6d4b}\u{8bd5} \u{1f600} na\u{ef}ve\n\nwith a blank line";
    let frame = encode_len(msg).unwrap();
    assert_eq!(decode_len(&frame), Ok(msg.to_string()));
}

#[test]
fn receive_is_the_same_for_every_size_of_read() {
    let payload = "The server receives your message, msg: abcdefghijklmnopqrstuvwxyz";
    let frame = encode_len(payload).unwrap();
    for step in [1usize, 2, 3, 4, 5, 7, 16, 63, 64, 1024, usize::MAX] {
        let mut stream = MemoryStream::with_limits(frame.clone(), step, 1);
        assert_eq!(stream.read_len(), Ok(payload.to_string()));
        assert_eq!(stream.remaining(), 0);
    }
}

#[test]
fn receive_of_a_large_payload_in_small_reads() {
    let payload: String = (0..3000).map(|i| char::from(b'0' + (i % 10) as u8)).collect();
    let frame = encode_len(&payload).unwrap();
    let mut stream = MemoryStream::with_limits(frame, 100, 1);
    assert_eq!(stream.read_len(), Ok(payload));
}

#[test]
fn receive_takes_the_frame_and_leaves_the_next() {
    let mut wire = encode_len("first").unwrap();
    wire.extend_from_slice(&encode_len("second message").unwrap());
    wire.extend_from_slice(&encode_len("").unwrap());
    for step in [1usize, 3, 1024] {
        let mut stream = MemoryStream::with_limits(wire.clone(), step, 1);
        assert_eq!(stream.read_len(), Ok("first".to_string()));
        assert_eq!(stream.remaining(), 18 + 4);
        assert_eq!(stream.read_len(), Ok("second message".to_string()));
        assert_eq!(stream.remaining(), 4);
        assert_eq!(stream.read_len(), Ok(String::new()));
        assert_eq!(stream.remaining(), 0);
        assert_eq!(stream.read_len(), Err(FrameError::MissingHeader));
    }
}

#[test]
fn empty_stream_is_a_missing_header() {
    assert_eq!(decode_len(&[]), Err(FrameError::MissingHeader));
    let mut stream = MemoryStream::new(Vec::new());
    assert_eq!(stream.read_len(), Err(FrameError::MissingHeader));
}

#[test]
fn stream_that_ends_inside_the_header_is_premature() {
    assert_eq!(decode_len(&[0]), Err(FrameError::PrematureClose));
    assert_eq!(decode_len(&[0, 0, 0]), Err(FrameError::PrematureClose));
}

#[test]
fn stream_that_ends_inside_the_payload_is_premature() {
    let frame = frame_of([0, 0, 0, 10], b"abc");
    assert_eq!(decode_len(&frame), Err(FrameError::PrematureClose));
    assert_eq!(decode_len(&[0, 0, 0, 1]), Err(FrameError::PrematureClose));
    for step in [1usize, 2, 5, 1024] {
        let mut stream = MemoryStream::with_limits(frame.clone(), step, 1);
        assert_eq!(stream.read_len(), Err(FrameError::PrematureClose));
        assert_eq!(stream.remaining(), 0);
    }
}

#[test]
fn one_byte_short_is_premature() {
    let mut frame = encode_len("abcdefghijklmnopqrstuvwxyz").unwrap();
    frame.pop();
    assert_eq!(decode_len(&frame), Err(FrameError::PrematureClose));
}

#[test]
fn negative_length_is_refused_at_the_header() {
    let frame = frame_of([0xff, 0xff, 0xff, 0xff], b"never read");
    assert_eq!(decode_len(&frame), Err(FrameError::InvalidLength));
    let mut stream = MemoryStream::with_limits(frame, 3, 1);
    assert_eq!(stream.read_len(), Err(FrameError::InvalidLength));
    assert_eq!(stream.remaining(), 10);
    assert_eq!(decode_len(&[0x80, 0, 0, 0]), Err(FrameError::InvalidLength));
}

#[test]
fn payload_that_is_not_utf8_is_decoded_lossily() {
    let frame = frame_of([0, 0, 0, 3], &[b'a', 0xff, b'b']);
    assert_eq!(decode_len(&frame), Ok("a\u{fffd}b".to_string()));
}

#[test]
fn bytes_after_the_frame_do_not_change_the_message() {
    let mut wire = encode_len("payload").unwrap();
    wire.extend_from_slice(b"\xff\xfe trailing");
    assert_eq!(decode_len(&wire), Ok("payload".to_string()));
}

#[test]
fn length_receiver_asks_for_the_header_then_for_the_payload() {
    let mut rx = LengthReceiver::new();
    assert_eq!(rx.wanted(), 4);
    assert_eq!(rx.expected(), None);
    assert_eq!(rx.accept(&[0, 0]), 2);
    assert_eq!(rx.wanted(), 2);
    assert_eq!(rx.result(), None);
    assert_eq!(rx.accept(&[0x08, 0x00]), 2);
    assert_eq!(rx.expected(), Some(2048));
    assert_eq!(rx.wanted(), 1024);
    assert_eq!(rx.accept(&[b'x'; 1024]), 1024);
    assert_eq!(rx.wanted(), 1024);
    assert_eq!(rx.accept(&[b'x'; 1000]), 1000);
    assert_eq!(rx.wanted(), 24);
    assert_eq!(rx.result(), None);
    assert_eq!(rx.accept(&[b'x'; 24]), 24);
    assert_eq!(rx.wanted(), 0);
    assert_eq!(rx.result(), Some(Ok("x".repeat(2048))));
}

#[test]
fn length_receiver_takes_no_byte_beyond_its_frame() {
    let mut rx = LengthReceiver::new();
    let wire = [0, 0, 0, 2, b'h', b'i', 0, 0, 0, 9];
    assert_eq!(rx.accept(&wire), 6);
    assert_eq!(rx.result(), Some(Ok("hi".to_string())));
    assert_eq!(rx.accept(&wire[6..]), 0);
    assert_eq!(rx.accept(&[]), 0);
    assert_eq!(rx.result(), Some(Ok("hi".to_string())));
}

#[test]
fn length_receiver_stops_at_a_refused_header() {
    let mut rx = LengthReceiver::new();
    assert_eq!(rx.accept(&[0x80, 0, 0, 1, 7, 7, 7]), 4);
    assert_eq!(rx.wanted(), 0);
    assert_eq!(rx.expected(), None);
    assert_eq!(rx.result(), Some(Err(FrameError::InvalidLength)));
}

#[test]
fn length_receiver_of_an_empty_payload_is_done_with_the_header() {
    let mut rx = LengthReceiver::new();
    assert_eq!(rx.accept(&[0, 0, 0, 0]), 4);
    assert_eq!(rx.wanted(), 0);
    assert_eq!(rx.result(), Some(Ok(String::new())));
}

#[test]
fn send_len_writes_the_frame_and_returns_its_length() {
    let mut stream = MemoryStream::new(Vec::new());
    assert_eq!(stream.send_len("abcdefghijklmnopqrstuvwxyz".to_string()), Ok(30));
    assert_eq!(stream.written(), encode_len("abcdefghijklmnopqrstuvwxyz").unwrap().as_slice());
}

#[test]
fn send_len_of_more_than_one_chunk_in_short_writes() {
    let msg = "z".repeat(4000);
    let mut stream = MemoryStream::with_limits(Vec::new(), 1, 333);
    assert_eq!(stream.send_len(msg.clone()), Ok(4004));
    assert_eq!(decode_len(stream.written()), Ok(msg));
}

#[test]
fn end_to_end_request_and_reply() {
    let request = "abcdefghijklmnopqrstuvwxyz";
    let mut client_out = MemoryStream::new(Vec::new());
    assert_eq!(client_out.send_len(request.to_string()), Ok(30));

    let wire = client_out.written().to_vec();
    assert_eq!(parse_length(&wire[..4]), Ok(26));
    assert_eq!(wire.len(), 4 + 26);
    let mut server = MemoryStream::with_limits(wire, 4, 1024);
    let received = server.read_len().unwrap();
    assert_eq!(received, request);
    assert_eq!(server.remaining(), 0);

    let reply = format!("The server receives your message, msg: {}", received);
    assert_eq!(server.send_len(reply.clone()), Ok(4 + reply.len()));

    let mut client_in = MemoryStream::with_limits(server.written().to_vec(), 9, 1);
    assert_eq!(
        client_in.read_len(),
        Ok("The server receives your message, msg: abcdefghijklmnopqrstuvwxyz".to_string())
    );
    assert_eq!(client_in.remaining(), 0);
}
