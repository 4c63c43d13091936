use tcp::text::{decode_text, is_blank, text_bytes};
use tcp::{FrameError, TransportError};

#[test]
fn text_is_carried_as_utf8() {
    assert_eq!(text_bytes("abc"), vec![b'a', b'b', b'c']);
    assert_eq!(text_bytes("\u{e9}\u{4e16}\u{1f600}"), vec![0xc3, 0xa9, 0xe4, 0xb8, 0x96, 0xf0, 0x9f, 0x98, 0x80]);
    assert_eq!(text_bytes(""), Vec::<u8>::new());
}

#[test]
fn valid_utf8_decodes_to_its_text() {
    assert_eq!(decode_text(b"hello"), "hello");
    assert_eq!(decode_text(&[0xc3, 0xa9, 0xe4, 0xb8, 0x96, 0xf0, 0x9f, 0x98, 0x80]), "\u{e9}\u{4e16}\u{1f600}");
    assert_eq!(decode_text(b""), "");
}

#[test]
fn invalid_utf8_decodes_with_replacement_characters() {
    assert_eq!(decode_text(&[0xff]), "\u{fffd}");
    assert_eq!(decode_text(&[b'a', 0x80, b'b']), "a\u{fffd}b");
    assert_eq!(decode_text(&[0xe4, 0xb8]), "\u{fffd}");
    assert_eq!(decode_text(&[0xf0, 0x9f, 0x98, b'!']), "\u{fffd}!");
}

#[test]
fn decoding_undoes_encoding() {
    for text in ["", "plain", "tab\tand\nnewline", "\u{6d4b}\u{8bd5}", "\u{fffd} already replaced"] {
        assert_eq!(decode_text(&text_bytes(text)), text);
    }
}

#[test]
fn blank_means_nothing_but_whitespace() {
    assert!(is_blank(""));
    assert!(is_blank(" "));
    assert!(is_blank("\n"));
    assert!(is_blank(" \t\r\n\u{b}\u{c}"));
    assert!(is_blank("\u{a0}\u{2028}\u{3000}"));
    assert!(!is_blank("a"));
    assert!(!is_blank("  a  "));
    assert!(!is_blank("\u{200b}"));
    assert!(!is_blank("\u{fffd}"));
}

#[test]
fn errors_describe_themselves() {
    assert_eq!(FrameError::Transport.message(), "transport failure");
    assert_eq!(FrameError::MissingHeader.message(), "Not found content-length");
    assert_eq!(FrameError::InvalidLength.message(), "content-length out of range");
    assert_eq!(FrameError::PrematureClose.message(), "stream closed inside a frame");
}

#[test]
fn errors_compare_by_kind() {
    assert_eq!(FrameError::PrematureClose, FrameError::PrematureClose);
    assert_ne!(FrameError::PrematureClose, FrameError::MissingHeader);
    assert_ne!(FrameError::InvalidLength, FrameError::Transport);
    assert_eq!(TransportError {}, TransportError {});
    assert_eq!(format!("{:?}", FrameError::MissingHeader), "MissingHeader");
}
