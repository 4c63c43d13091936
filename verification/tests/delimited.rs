use tcp::line::{is_blank_line, NEWLINE};
use tcp::{
    decode_line, encode_line, FrameError, FrameReceiver, LineReceiver, MemoryStream,
    SocketRecvTrait, SocketSendTrait,
};

#[test]
fn line_frame_is_payload_then_two_newlines() {
    assert_eq!(NEWLINE, b'\n');
    assert_eq!(encode_line("abc"), b"abc\n\n".to_vec());
    assert_eq!(encode_line(""), b"\n\n".to_vec());
    assert_eq!(encode_line("line one\nline two"), b"line one\nline two\n\n".to_vec());
}

#[test]
fn two_lines_and_a_blank_line() {
    assert_eq!(decode_line(b"line one\nline two\n\n"), Ok("line one\nline two".to_string()));
}

#[test]
fn one_line_and_a_blank_line() {
    assert_eq!(decode_line(b"abcdefghijklmnopqrstuvwxyz\n\n"), Ok("abcdefghijklmnopqrstuvwxyz".to_string()));
}

#[test]
fn blank_line_alone_is_the_empty_message() {
    assert_eq!(decode_line(b"\n\n"), Ok(String::new()));
    assert_eq!(decode_line(b"\n"), Ok(String::new()));
}

#[test]
fn line_round_trip_of_one_line() {
    let msg = "The server receives your message, msg: hello";
    assert_eq!(decode_line(&encode_line(msg)), Ok(msg.to_string()));
}

#[test]
fn line_round_trip_of_many_lines() {
    let msg = "GET /index.html\nHost: example\nAccept: text/plain";
    assert_eq!(decode_line(&encode_line(msg)), Ok(msg.to_string()));
}

#[test]
fn line_round_trip_of_text_beyond_ascii() {
    let msg = "\u{6d4b}\u{8bd5}\u{6d4b}\u{8bd5}\n\u{1f600} second line";
    assert_eq!(decode_line(&encode_line(msg)), Ok(msg.to_string()));
}

#[test]
fn line_round_trip_of_more_than_one_chunk() {
    let line: String = "0123456789".repeat(30);
    let msg = vec![line; 12].join("\n");
    assert!(msg.len() > 3 * 1024);
    assert_eq!(decode_line(&encode_line(&msg)), Ok(msg));
}

#[test]
fn line_round_trip_of_the_empty_message() {
    assert_eq!(decode_line(&encode_line("")), Ok(String::new()));
}

#[test]
fn blank_line_inside_a_message_cuts_it() {
    assert_eq!(decode_line(&encode_line("head\n\nbody")), Ok("head".to_string()));
    assert_eq!(decode_line(&encode_line("ends with newline\n")), Ok("ends with newline".to_string()));
}

#[test]
fn line_of_whitespace_ends_the_message() {
    assert_eq!(decode_line(b"abc\n  \t \nnext"), Ok("abc".to_string()));
    assert_eq!(decode_line(b"abc\r\n\r\n"), Ok("abc\r".to_string()));
    assert_eq!(decode_line("abc\n\u{a0}\u{3000}\n".as_bytes()), Ok("abc".to_string()));
}

#[test]
fn last_line_without_newline_counts_if_it_is_blank() {
    assert_eq!(decode_line(b"abc\n   "), Ok("abc".to_string()));
    assert_eq!(decode_line(b" "), Ok(String::new()));
}

#[test]
fn stream_that_ends_before_a_blank_line_is_premature() {
    assert_eq!(decode_line(b""), Err(FrameError::PrematureClose));
    assert_eq!(decode_line(b"abc"), Err(FrameError::PrematureClose));
    assert_eq!(decode_line(b"abc\n"), Err(FrameError::PrematureClose));
    assert_eq!(decode_line(b"abc\ndef\nghi"), Err(FrameError::PrematureClose));
}

#[test]
fn line_that_is_not_utf8_is_decoded_lossily() {
    assert_eq!(decode_line(b"a\xffb\n\n"), Ok("a\u{fffd}b".to_string()));
    assert_eq!(decode_line(b"\xff\n\xfe\n\n"), Ok("\u{fffd}\n\u{fffd}".to_string()));
}

#[test]
fn blank_line_is_judged_as_trimmed_text() {
    assert!(is_blank_line(b"\n"));
    assert!(is_blank_line(b""));
    assert!(is_blank_line(b" \t\r\n"));
    assert!(is_blank_line("\u{2003}\n".as_bytes()));
    assert!(!is_blank_line(b"a\n"));
    assert!(!is_blank_line(b" . \n"));
    assert!(!is_blank_line(b"\xff\n"));
}

#[test]
fn delimited_receive_is_the_same_for_every_size_of_read() {
    let wire = b"line one\nline two\n\n".to_vec();
    for step in [1usize, 2, 3, 8, 9, 10, 18, 19, 1024] {
        let mut stream = MemoryStream::with_limits(wire.clone(), step, 1);
        assert_eq!(stream.read_line(), Ok("line one\nline two".to_string()));
        assert_eq!(stream.remaining(), 0);
    }
}

#[test]
fn delimited_receive_in_single_bytes_leaves_the_next_message() {
    let mut wire = encode_line("first");
    wire.extend_from_slice(&encode_line("second\nmessage"));
    let mut stream = MemoryStream::with_limits(wire, 1, 1);
    assert_eq!(stream.read_line(), Ok("first".to_string()));
    assert_eq!(stream.remaining(), 16);
    assert_eq!(stream.read_line(), Ok("second\nmessage".to_string()));
    assert_eq!(stream.remaining(), 0);
    assert_eq!(stream.read_line(), Err(FrameError::PrematureClose));
}

#[test]
fn delimited_receive_of_a_premature_close_in_small_reads() {
    for step in [1usize, 4, 1024] {
        let mut stream = MemoryStream::with_limits(b"no terminator\nhere".to_vec(), step, 1);
        assert_eq!(stream.read_line(), Err(FrameError::PrematureClose));
    }
}

#[test]
fn line_receiver_stops_at_the_blank_line() {
    let mut rx = LineReceiver::new();
    assert_eq!(rx.wanted(), 1024);
    assert_eq!(rx.accept(b"line o"), 6);
    assert_eq!(rx.result(), None);
    assert_eq!(rx.accept(b"ne\nline two\n"), 12);
    assert_eq!(rx.result(), None);
    assert_eq!(rx.wanted(), 1024);
    assert_eq!(rx.accept(b"\nnext message\n\n"), 1);
    assert_eq!(rx.wanted(), 0);
    assert_eq!(rx.result(), Some(Ok("line one\nline two".to_string())));
    assert_eq!(rx.accept(b"more"), 0);
    assert_eq!(rx.result(), Some(Ok("line one\nline two".to_string())));
}

#[test]
fn line_receiver_judges_a_line_only_when_it_is_whole() {
    let mut rx = LineReceiver::new();
    assert_eq!(rx.accept(b"abc\n  "), 6);
    assert_eq!(rx.result(), None);
    assert_eq!(rx.accept(b"x\n"), 2);
    assert_eq!(rx.result(), None);
    assert_eq!(rx.accept(b" \n"), 2);
    assert_eq!(rx.result(), Some(Ok("abc\n  x".to_string())));
}

#[test]
fn line_receiver_at_the_end_of_the_stream() {
    let mut rx = LineReceiver::new();
    assert_eq!(rx.accept(b"abc\n"), 4);
    assert_eq!(rx.accept(b""), 0);
    assert_eq!(rx.wanted(), 0);
    assert_eq!(rx.result(), Some(Err(FrameError::PrematureClose)));
    assert_eq!(rx.accept(b"\n"), 0);
    assert_eq!(rx.result(), Some(Err(FrameError::PrematureClose)));
}

#[test]
fn send_line_writes_the_frame_and_returns_its_length() {
    let mut stream = MemoryStream::new(Vec::new());
    assert_eq!(stream.send_line("\u{6d4b}\u{8bd5}\u{6d4b}\u{8bd5}".to_string()), Ok(14));
    assert_eq!(stream.written(), "\u{6d4b}\u{8bd5}\u{6d4b}\u{8bd5}\n\n".as_bytes());
}

#[test]
fn delimited_request_and_reply() {
    let mut client = MemoryStream::with_limits(Vec::new(), 1, 3);
    client.send_line("\u{6d4b}\u{8bd5}\u{6d4b}\u{8bd5}".to_string()).unwrap();
    let mut server = MemoryStream::with_limits(client.written().to_vec(), 5, 2);
    let request = server.read_line().unwrap();
    assert_eq!(request, "\u{6d4b}\u{8bd5}\u{6d4b}\u{8bd5}");
    let reply = format!("The server receives your message, msg: {}", request);
    server.send_line(reply.clone()).unwrap();
    assert_eq!(decode_line(server.written()), Ok(reply));
}

#[test]
fn delimited_receive_in_whole_chunks_reads_past_the_blank_line() {
    let mut wire = encode_line("first");
    wire.extend_from_slice(&encode_line("second"));
    let mut stream = MemoryStream::new(wire.clone());
    assert_eq!(stream.read_line(), Ok("first".to_string()));
    assert_eq!(stream.remaining(), 0);

    let mut rx = LineReceiver::new();
    assert_eq!(rx.accept(&wire), 7);
    assert_eq!(rx.result(), Some(Ok("first".to_string())));
    let mut next = LineReceiver::new();
    assert_eq!(next.accept(&wire[7..]), 8);
    assert_eq!(next.result(), Some(Ok("second".to_string())));
}
