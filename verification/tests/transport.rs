use graph::transport::{
    content_length_header, message_text, parse_header_line, receive_line, HeaderLine, LengthError,
    Receive, TransportError,
};

/// What the standard library makes of the text after the name.
fn by_std(line: &str) -> Result<usize, std::num::ParseIntError> {
    line.trim_start_matches("Content-Length:").trim().parse::<usize>()
}

#[test]
fn header_gives_the_length_in_decimal() {
    assert_eq!(content_length_header(0), "Content-Length: 0\r\n\r\n");
    assert_eq!(content_length_header(7), "Content-Length: 7\r\n\r\n");
    assert_eq!(content_length_header(10), "Content-Length: 10\r\n\r\n");
    assert_eq!(content_length_header(1234567890), "Content-Length: 1234567890\r\n\r\n");
    assert_eq!(
        content_length_header(usize::MAX),
        format!("Content-Length: {}\r\n\r\n", usize::MAX)
    );
}

#[test]
fn header_agrees_with_format_on_many_lengths() {
    let mut length: usize = 0;
    for k in 0..2000 {
        assert_eq!(
            content_length_header(length),
            format!("Content-Length: {}\r\n\r\n", length)
        );
        length = length.wrapping_mul(31).wrapping_add(k);
    }
}

#[test]
fn the_empty_line_ends_the_headers() {
    assert_eq!(parse_header_line("\r\n"), Ok(HeaderLine::End));
    assert_eq!(parse_header_line("\n"), Ok(HeaderLine::Other));
    assert_eq!(parse_header_line(""), Ok(HeaderLine::Other));
    assert_eq!(parse_header_line(" \r\n"), Ok(HeaderLine::Other));
}

#[test]
fn content_length_is_read() {
    assert_eq!(parse_header_line("Content-Length: 42\r\n"), Ok(HeaderLine::ContentLength(42)));
    assert_eq!(parse_header_line("Content-Length:0\r\n"), Ok(HeaderLine::ContentLength(0)));
    assert_eq!(parse_header_line("Content-Length: 007"), Ok(HeaderLine::ContentLength(7)));
    assert_eq!(parse_header_line("Content-Length:\t +15 \r\n"), Ok(HeaderLine::ContentLength(15)));
    assert_eq!(
        parse_header_line("Content-Length:\u{a0}\u{2003}9\u{3000}\r\n"),
        Ok(HeaderLine::ContentLength(9))
    );
    assert_eq!(
        parse_header_line(&format!("Content-Length: {}\r\n", usize::MAX)),
        Ok(HeaderLine::ContentLength(usize::MAX))
    );
}

#[test]
fn a_repeated_name_is_taken_off_each_time() {
    assert_eq!(
        parse_header_line("Content-Length:Content-Length:Content-Length: 3\r\n"),
        Ok(HeaderLine::ContentLength(3))
    );
    assert_eq!(
        parse_header_line("Content-Length: Content-Length: 3\r\n"),
        Err(LengthError::InvalidDigit)
    );
}

#[test]
fn other_headers_are_skipped() {
    assert_eq!(parse_header_line("Content-Type: application/json\r\n"), Ok(HeaderLine::Other));
    assert_eq!(parse_header_line("content-length: 5\r\n"), Ok(HeaderLine::Other));
    assert_eq!(parse_header_line(" Content-Length: 5\r\n"), Ok(HeaderLine::Other));
    assert_eq!(parse_header_line("Content-Length"), Ok(HeaderLine::Other));
    assert_eq!(parse_header_line("Content-Lengt: 5"), Ok(HeaderLine::Other));
}

#[test]
fn a_missing_length_is_an_error() {
    assert_eq!(parse_header_line("Content-Length:"), Err(LengthError::Empty));
    assert_eq!(parse_header_line("Content-Length: \r\n"), Err(LengthError::Empty));
    assert_eq!(parse_header_line("Content-Length:Content-Length:\r\n"), Err(LengthError::Empty));
}

#[test]
fn what_is_no_digit_is_an_error() {
    assert_eq!(parse_header_line("Content-Length: 4x\r\n"), Err(LengthError::InvalidDigit));
    assert_eq!(parse_header_line("Content-Length: -5\r\n"), Err(LengthError::InvalidDigit));
    assert_eq!(parse_header_line("Content-Length: +\r\n"), Err(LengthError::InvalidDigit));
    assert_eq!(parse_header_line("Content-Length: -\r\n"), Err(LengthError::InvalidDigit));
    assert_eq!(parse_header_line("Content-Length: ++5\r\n"), Err(LengthError::InvalidDigit));
    assert_eq!(parse_header_line("Content-Length: 1 2\r\n"), Err(LengthError::InvalidDigit));
    assert_eq!(parse_header_line("Content-Length: 0x10\r\n"), Err(LengthError::InvalidDigit));
    assert_eq!(parse_header_line("Content-Length: \u{663}\r\n"), Err(LengthError::InvalidDigit));
    assert_eq!(parse_header_line("Content-Length: 5\u{200b}\r\n"), Err(LengthError::InvalidDigit));
}

#[test]
fn a_length_beyond_usize_is_an_error() {
    let too_large = format!("Content-Length: {}0\r\n", usize::MAX);
    assert_eq!(parse_header_line(&too_large), Err(LengthError::PosOverflow));
    let one_more = format!("Content-Length: {}\r\n", usize::MAX as u128 + 1);
    assert_eq!(parse_header_line(&one_more), Err(LengthError::PosOverflow));
    // What ends the reading first decides: an overflow before a bad
    // character, a bad character before an overflow.
    let then_bad = format!("Content-Length: {}0x\r\n", usize::MAX);
    assert_eq!(parse_header_line(&then_bad), Err(LengthError::PosOverflow));
    let bad_first = format!("Content-Length: x{}0\r\n", usize::MAX);
    assert_eq!(parse_header_line(&bad_first), Err(LengthError::InvalidDigit));
}

#[test]
fn lines_are_read_as_the_standard_library_reads_them() {
    let max = usize::MAX.to_string();
    let texts = [
        "", " ", "0", "00", "+0", "-0", "+", "-", "+-1", "1", " 1", "1 ", "\t12\r\n", "12a", "a12",
        "1_000", "٣", "１２", "\u{a0}8\u{2028}", "\u{200b}8", "18446744073709551615",
        "18446744073709551616", "4294967295", "4294967296", "99999999999999999999999999",
        "999999999999999999999999x", "x999999999999999999999999", "Content-Length: 4",
        "Content-Length:Content-Length:5", " Content-Length:5", &max, "\u{85}3", "\u{1680}3",
        "\u{205f}3\u{202f}", "3\u{feff}", "\u{b}\u{c}4\r",
    ];
    for text in texts {
        let line = format!("Content-Length:{text}");
        let expected = by_std(&line);
        match parse_header_line(&line) {
            Ok(HeaderLine::ContentLength(length)) => assert_eq!(Ok(length), expected, "{line:?}"),
            Err(error) => {
                let kind = match error {
                    LengthError::Empty => std::num::IntErrorKind::Empty,
                    LengthError::InvalidDigit => std::num::IntErrorKind::InvalidDigit,
                    LengthError::PosOverflow => std::num::IntErrorKind::PosOverflow,
                };
                assert_eq!(expected.map_err(|e| e.kind().clone()), Err(kind), "{line:?}");
            }
            other => panic!("{line:?} was read as {other:?}"),
        }
    }
}

#[test]
fn what_is_sent_is_received() {
    for length in [0, 1, 9, 10, 99, 100, 65535, 1 << 31, usize::MAX - 1, usize::MAX] {
        let header = content_length_header(length);
        let mut lines = header.split_inclusive('\n');
        let first = lines.next().unwrap();
        let second = lines.next().unwrap();
        assert_eq!(lines.next(), None);
        assert!(matches!(
            receive_line(None, first),
            Ok(Receive::Header { content_length: Some(read) }) if read == length
        ));
        assert!(matches!(
            receive_line(Some(length), second),
            Ok(Receive::Body { length: read }) if read == length
        ));
    }
}

#[test]
fn the_receiver_keeps_the_last_length() {
    assert!(matches!(
        receive_line(Some(5), "Content-Length: 6\r\n"),
        Ok(Receive::Header { content_length: Some(6) })
    ));
    assert!(matches!(
        receive_line(Some(5), "Content-Type: text\r\n"),
        Ok(Receive::Header { content_length: Some(5) })
    ));
    assert!(matches!(
        receive_line(None, "Content-Type: text\r\n"),
        Ok(Receive::Header { content_length: None })
    ));
}

#[test]
fn headers_without_a_length_give_an_empty_message() {
    assert!(matches!(receive_line(None, "\r\n"), Ok(Receive::Empty)));
    assert!(matches!(receive_line(Some(0), "\r\n"), Ok(Receive::Body { length: 0 })));
    assert!(matches!(receive_line(Some(17), "\r\n"), Ok(Receive::Body { length: 17 })));
}

#[test]
fn a_bad_length_stops_the_receiver() {
    assert!(matches!(
        receive_line(Some(5), "Content-Length: five\r\n"),
        Err(TransportError::ParseInt(LengthError::InvalidDigit))
    ));
    assert!(matches!(
        receive_line(None, "Content-Length:\r\n"),
        Err(TransportError::ParseInt(LengthError::Empty))
    ));
    let too_large = format!("Content-Length: {}9\r\n", usize::MAX);
    assert!(matches!(
        receive_line(None, &too_large),
        Err(TransportError::ParseInt(LengthError::PosOverflow))
    ));
}

#[test]
fn a_body_of_valid_utf8_is_the_message() {
    assert_eq!(message_text(Vec::new()).unwrap(), "");
    assert_eq!(message_text(b"{\"jsonrpc\":\"2.0\"}".to_vec()).unwrap(), "{\"jsonrpc\":\"2.0\"}");
    assert_eq!(message_text(vec![0xe2, 0x82, 0xac, 0x20, 0xc3, 0xa9]).unwrap(), "\u{20ac} \u{e9}");
    let message = "na\u{ef}ve \u{1f980} text";
    assert_eq!(message_text(message.as_bytes().to_vec()).unwrap(), message);
}

#[test]
fn a_body_that_is_not_utf8_is_refused() {
    for body in [vec![0xff], vec![0x61, 0x80], vec![0xe2, 0x82], vec![0xed, 0xa0, 0x80]] {
        match message_text(body.clone()) {
            Err(TransportError::FromUtf8(error)) => assert_eq!(error.into_bytes(), body),
            other => panic!("{body:?} was read as {other:?}"),
        }
    }
}

#[test]
fn a_whole_message_goes_through() {
    let message = "{\"id\":1,\"result\":\"\u{2713}\"}";
    let header = content_length_header(message.len());
    let mut stream = header.into_bytes();
    stream.extend_from_slice(message.as_bytes());
    // Receive: lines until the empty one, then as many bytes as announced.
    let mut rest: &[u8] = &stream;
    let mut content_length = None;
    let length = loop {
        let end = rest.iter().position(|&b| b == b'\n').unwrap() + 1;
        let line = std::str::from_utf8(&rest[..end]).unwrap();
        rest = &rest[end..];
        match receive_line(content_length, line).unwrap() {
            Receive::Header { content_length: seen } => content_length = seen,
            Receive::Body { length } => break length,
            Receive::Empty => panic!("no length"),
        }
    };
    assert_eq!(length, message.len());
    assert_eq!(rest.len(), length);
    assert_eq!(message_text(rest.to_vec()).unwrap(), message);
}

#[test]
fn many_lines_are_read_as_the_standard_library_reads_them() {
    let pieces = [
        " ", "\t", "\r", "\n", "+", "-", "0", "1", "9", "5", "7", "x", "\u{a0}", "\u{2009}", ":",
        "Content-Length:", "18446744073709551615", "4294967295",
    ];
    let mut seed: u64 = 0x2545f4914f6cdd1d;
    let mut next = move || {
        seed ^= seed << 13;
        seed ^= seed >> 7;
        seed ^= seed << 17;
        seed
    };
    for _ in 0..20000 {
        let mut line = String::from("Content-Length:");
        for _ in 0..(next() % 7) {
            line.push_str(pieces[(next() % pieces.len() as u64) as usize]);
        }
        let expected = by_std(&line);
        match parse_header_line(&line) {
            Ok(HeaderLine::ContentLength(length)) => assert_eq!(Ok(length), expected, "{line:?}"),
            Err(error) => {
                let kind = match error {
                    LengthError::Empty => std::num::IntErrorKind::Empty,
                    LengthError::InvalidDigit => std::num::IntErrorKind::InvalidDigit,
                    LengthError::PosOverflow => std::num::IntErrorKind::PosOverflow,
                };
                assert_eq!(expected.map_err(|e| e.kind().clone()), Err(kind), "{line:?}");
            }
            other => panic!("{line:?} was read as {other:?}"),
        }
    }
}
