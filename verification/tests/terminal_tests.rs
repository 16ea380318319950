use ide_server::protocol::Event;
use ide_server::terminal::{decode_terminal_input, terminal_exit_event, terminal_output_event, Base64Error};

#[test]
fn input_is_decoded_from_base64() {
    assert_eq!(decode_terminal_input("aGk="), Ok(b"hi".to_vec()));
    assert_eq!(decode_terminal_input("bHMgLWxhDQ=="), Ok(b"ls -la\r".to_vec()));
    assert_eq!(decode_terminal_input(""), Ok(Vec::new()));
}

#[test]
fn bad_input_is_refused() {
    assert_eq!(decode_terminal_input("!!!!"), Err(Base64Error::InvalidByte(0, 33)));
    assert_eq!(decode_terminal_input("aGk"), Err(Base64Error::InvalidPadding));
    assert!(matches!(decode_terminal_input("a"), Err(Base64Error::InvalidLength(_))));
}

#[test]
fn base64_error_messages() {
    assert_eq!(Base64Error::InvalidByte(0, 33).message(), "Invalid symbol 33, offset 0.");
    assert_eq!(Base64Error::InvalidLength(5).message(), "Invalid input length: 5");
    assert_eq!(Base64Error::InvalidLastSymbol(3, 81).message(), "Invalid last symbol 81, offset 3.");
    assert_eq!(Base64Error::InvalidPadding.message(), "Invalid padding");
}

#[test]
fn output_is_framed_in_base64() {
    let event = terminal_output_event(3, b"hello");
    assert_eq!(event, Event::TerminalOutput { terminal_id: 3, data: "aGVsbG8=".to_string() });
    let event = terminal_output_event(4, &[0xff, 0x00, 0x10]);
    assert_eq!(event, Event::TerminalOutput { terminal_id: 4, data: "/wAQ".to_string() });
    let event = terminal_output_event(5, b"ab");
    assert_eq!(event, Event::TerminalOutput { terminal_id: 5, data: "YWI=".to_string() });
}

#[test]
fn exit_event_has_no_code() {
    assert_eq!(terminal_exit_event(9), Event::TerminalExit { terminal_id: 9, code: None });
}

#[test]
fn decoding_the_output_framing_gives_the_bytes_back() {
    for chunk in [&b""[..], b"a", b"ab", b"abc", b"\x00\xff\x10\x80", b"ls -la\r\n"] {
        let data = match terminal_output_event(1, chunk) {
            Event::TerminalOutput { data, .. } => data,
            other => panic!("unexpected event {other:?}"),
        };
        assert_eq!(decode_terminal_input(&data), Ok(chunk.to_vec()));
    }
    assert!(matches!(decode_terminal_input("QR=="), Err(Base64Error::InvalidLastSymbol(1, b'R'))));
}
