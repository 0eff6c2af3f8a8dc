use stomp_frame::error::ReadError;
use stomp_frame::header::parse_field;
use stomp_frame::io::{split_step, DelimitedReader, LimitedReader, Step};
use stomp_frame::string::{decode, encode};
use stomp_frame::text::{decode_text, read_number, to_chars};
use stomp_frame::{Body, Command, Frame, Header, MemReader};

#[test]
fn encode_replaces_the_four_characters() {
    assert_eq!(encode("a\\b"), "a\\\\b");
    assert_eq!(encode("a\nb"), "a\\nb");
    assert_eq!(encode("a\rb"), "a\\rb");
    assert_eq!(encode("a:b"), "a\\cb");
    assert_eq!(encode("plain text"), "plain text");
    assert_eq!(encode(""), "");
    assert_eq!(encode("\\n"), "\\\\n");
}

#[test]
fn decode_reads_the_four_codes() {
    assert_eq!(decode("a\\\\b"), "a\\b");
    assert_eq!(decode("a\\nb"), "a\nb");
    assert_eq!(decode("a\\rb"), "a\rb");
    assert_eq!(decode("a\\cb"), "a:b");
    assert_eq!(decode("\\\\n"), "\\n");
}

#[test]
fn decode_keeps_unknown_sequences() {
    assert_eq!(decode("a\\tb"), "a\\tb");
    assert_eq!(decode("tail\\"), "tail\\");
    assert_eq!(decode("\\x\\n"), "\\x\n");
}

#[test]
fn decode_undoes_encode() {
    for s in [
        "",
        "\\",
        "\\\\",
        "\n\r:\\",
        "\\n",
        "\\c:\\r\r",
        "caf\u{e9} \u{1f600} : \u{2028}",
        "a\\:b\\\nc",
    ] {
        assert_eq!(decode(&encode(s)), s);
    }
}

#[test]
fn command_names() {
    let all = [
        (Command::Connect, "CONNECT"),
        (Command::Stomp, "STOMP"),
        (Command::Connected, "CONNECTED"),
        (Command::Send, "SEND"),
        (Command::Subscribe, "SUBSCRIBE"),
        (Command::Unsubscribe, "UNSUBSCRIBE"),
        (Command::Ack, "ACK"),
        (Command::Nack, "NACK"),
        (Command::Begin, "BEGIN"),
        (Command::Commit, "COMMIT"),
        (Command::Abort, "ABORT"),
        (Command::Disconnect, "DISCONNECT"),
        (Command::Message, "MESSAGE"),
        (Command::Receipt, "RECEIPT"),
        (Command::Error, "ERROR"),
    ];
    for (command, name) in all {
        assert_eq!(command.as_str(), name);
        assert_eq!(command.to_string(), name);
        assert_eq!(Command::from_str(name), Ok(command));
    }
}

#[test]
fn command_refuses_other_text() {
    assert_eq!(
        Command::from_str("connect"),
        Err(String::from("invalid command: connect"))
    );
    assert_eq!(Command::from_str(""), Err(String::from("invalid command: ")));
    assert_eq!(
        Command::from_str("SEND "),
        Err(String::from("invalid command: SEND "))
    );
}

#[test]
fn header_fields() {
    let mut header = Header::new();
    assert_eq!(header.get_field("a"), None);
    header.add_field("a", "1");
    header.add_field("a", "2");
    assert_eq!(
        header.get_field("a"),
        Some(&vec![String::from("1"), String::from("2")])
    );
    header.set_field("a", vec![String::from("3")]);
    assert_eq!(header.get_field("a"), Some(&vec![String::from("3")]));
    header.set_field("b", vec![]);
    assert_eq!(header.get_field("b"), Some(&vec![]));
    header.remove_field("a");
    assert_eq!(header.get_field("a"), None);
    header.remove_field("missing");
    assert_eq!(header.get_field("b"), Some(&vec![]));
}

#[test]
fn default_header_is_empty() {
    assert_eq!(Header::default(), Header::new());
    let mut out: Vec<u8> = Vec::new();
    assert_eq!(Header::default().write_to(&mut out), 0);
    assert_eq!(out, Vec::<u8>::new());
}

#[test]
fn consume_takes_no_more_than_is_shown() {
    let mut reader = MemReader::with_chunk_size(b"abcdef".to_vec(), 4);
    reader.consume(100);
    assert_eq!(reader.rest(), b"ef");
    let mut limited = LimitedReader::new(MemReader::new(b"abcdef".to_vec()), 2);
    limited.consume(100);
    assert_eq!(limited.remaining_budget(), 0);
    assert_eq!(limited.into_inner().rest(), b"cdef");
}

#[test]
fn header_lines_are_sorted_by_name() {
    let names = ["delta", "alpha", "Charlie", "bravo", "alphabet", "a"];
    let mut forward = Header::new();
    for name in names {
        forward.add_field(name, "x");
    }
    let mut backward = Header::new();
    for name in names.iter().rev() {
        backward.add_field(name, "x");
    }
    assert_eq!(forward, backward);
    let mut first: Vec<u8> = Vec::new();
    let mut second: Vec<u8> = Vec::new();
    forward.write_to(&mut first);
    backward.write_to(&mut second);
    assert_eq!(first, second);
    assert_eq!(
        std::str::from_utf8(&first).unwrap(),
        "Charlie: x\na: x\nalpha: x\nalphabet: x\nbravo: x\ndelta: x\n"
    );
}

#[test]
fn header_write_joins_values_and_counts_bytes() {
    let mut header = Header::new();
    header.add_field("k", "a");
    header.add_field("k", "b:c");
    header.set_field("empty", vec![]);
    let mut out: Vec<u8> = b"#".to_vec();
    let n = header.write_to(&mut out);
    assert_eq!(out, b"#empty: \nk: a,b\\cc\n".to_vec());
    assert_eq!(n, 18);
}

#[test]
fn header_read_stops_at_the_blank_line() {
    let input = b"a: 1\nb:2\na:  3 \n\nbody";
    let (header, rest) = Header::read_from(MemReader::new(input.to_vec())).unwrap();
    assert_eq!(
        header.get_field("a"),
        Some(&vec![String::from("1"), String::from("3 ")])
    );
    assert_eq!(header.get_field("b"), Some(&vec![String::from("2")]));
    assert_eq!(rest.rest(), b"body");
}

#[test]
fn header_line_parts() {
    assert_eq!(
        parse_field(&to_chars(" na\\cme \t:  va\\nlue  \r\r")),
        Ok((String::from("na:me"), String::from("va\nlue  ")))
    );
    assert_eq!(
        parse_field(&to_chars("a:b:c")),
        Ok((String::from("a"), String::from("b")))
    );
    assert_eq!(
        parse_field(&to_chars("a:")),
        Ok((String::from("a"), String::from("")))
    );
}

#[test]
fn header_without_colon_is_refused() {
    let result = Header::read_from(MemReader::new(b"no colon here\n\n".to_vec()));
    assert_eq!(
        result.err(),
        Some(ReadError::Format(String::from(
            "invalid number of header field parts. Expected 2, got 1"
        )))
    );
}

#[test]
fn header_with_empty_name_is_refused() {
    let result = Header::read_from(MemReader::new(b": value\n\n".to_vec()));
    assert_eq!(
        result.err(),
        Some(ReadError::Format(String::from("empty header field name")))
    );
    let result = Header::read_from(MemReader::new(b"  \t : value\n\n".to_vec()));
    assert_eq!(
        result.err(),
        Some(ReadError::Format(String::from("empty header field name")))
    );
}

#[test]
fn header_line_must_be_utf8() {
    let result = Header::read_from(MemReader::new(b"a: \xff\n\n".to_vec()));
    assert_eq!(result.err(), Some(ReadError::Encoding));
    let result = Frame::read_from(MemReader::new(b"SEND\xc3\n\n\0".to_vec()));
    assert_eq!(result.err(), Some(ReadError::Encoding));
}

#[test]
fn utf8_text_is_decoded() {
    assert_eq!(decode_text(b"caf\xc3\xa9"), Some(vec!['c', 'a', 'f', '\u{e9}']));
    assert_eq!(decode_text(b"caf\xc3"), None);
    assert_eq!(decode_text(b"\xed\xa0\x80"), None);
    let (header, _) =
        Header::read_from(MemReader::new("n\u{e4}me: \u{2028}v\u{e4}l\n\n".as_bytes().to_vec()))
            .unwrap();
    assert_eq!(
        header.get_field("n\u{e4}me"),
        Some(&vec![String::from("v\u{e4}l")])
    );
}

#[test]
fn command_line_limit() {
    let mut long = vec![b'A'; 1025];
    assert_eq!(
        Frame::read_from(MemReader::new(long.clone())).err(),
        Some(ReadError::SizeExceeded)
    );
    long.push(b'\n');
    assert_eq!(
        Frame::read_from(MemReader::new(long)).err(),
        Some(ReadError::SizeExceeded)
    );
    let mut fits = vec![b' '; 1019];
    fits.extend_from_slice(b"SEND\n\n\0");
    assert_eq!(
        Frame::read_from(MemReader::new(fits)).unwrap().command,
        Command::Send
    );
    let mut over = vec![b' '; 1020];
    over.extend_from_slice(b"SEND\n\n\0");
    assert_eq!(
        Frame::read_from(MemReader::new(over)).err(),
        Some(ReadError::SizeExceeded)
    );
}

#[test]
fn header_block_limit() {
    let mut block: Vec<u8> = Vec::new();
    while block.len() < 1_024_000 {
        block.extend_from_slice(b"name: 0123456789\n");
    }
    assert_eq!(
        Header::read_from(MemReader::new(block)).err(),
        Some(ReadError::SizeExceeded)
    );
    let endless = vec![b'x'; 1_024_001];
    assert_eq!(
        Header::read_from(MemReader::with_chunk_size(endless, 4096)).err(),
        Some(ReadError::SizeExceeded)
    );
    let mut fits = b"k: ".to_vec();
    fits.resize(1_024_000 - 2, b'v');
    fits.extend_from_slice(b"\n\n");
    let (header, rest) = Header::read_from(MemReader::new(fits)).unwrap();
    assert_eq!(header.get_field("k").unwrap()[0].len(), 1_024_000 - 5);
    assert_eq!(rest.rest(), b"");
}

#[test]
fn empty_command_is_refused() {
    for input in [&b""[..], &b"\nSEND\n"[..], &b"  \r\n\n"[..]] {
        assert_eq!(
            Frame::read_from(MemReader::new(input.to_vec())).err(),
            Some(ReadError::Format(String::from("empty command")))
        );
    }
}

#[test]
fn unknown_command_is_refused_with_its_text() {
    assert_eq!(
        Frame::read_from(MemReader::new(b" HELLO \r\n\n\0".to_vec())).err(),
        Some(ReadError::Format(String::from("invalid command: HELLO")))
    );
}

#[test]
fn command_line_may_end_in_carriage_return() {
    let frame = Frame::read_from(MemReader::new(b"SEND\r\na: b\r\n\nx\0".to_vec())).unwrap();
    assert_eq!(frame.command, Command::Send);
    assert_eq!(frame.header.get_field("a"), Some(&vec![String::from("b")]));
}

#[test]
fn content_length_must_be_a_number() {
    assert_eq!(
        Frame::read_from(MemReader::new(b"SEND\nContent-Length: 1x\n\n\0".to_vec())).err(),
        Some(ReadError::ContentLength(String::from("1x")))
    );
    assert_eq!(
        Frame::read_from(MemReader::new(b"SEND\nContent-Length:\n\n\0".to_vec())).err(),
        Some(ReadError::ContentLength(String::from("")))
    );
}

#[test]
fn numbers() {
    assert_eq!(read_number("0"), Some(0));
    assert_eq!(read_number("17"), Some(17));
    assert_eq!(read_number("+17"), Some(17));
    assert_eq!(read_number("007"), Some(7));
    assert_eq!(read_number("18446744073709551615"), Some(u64::MAX));
    assert_eq!(read_number("18446744073709551616"), None);
    assert_eq!(read_number("99999999999999999999999"), None);
    assert_eq!(read_number(""), None);
    assert_eq!(read_number("+"), None);
    assert_eq!(read_number("-1"), None);
    assert_eq!(read_number("1 "), None);
    assert_eq!(read_number("\u{661}"), None);
}

#[test]
fn error_texts() {
    assert_eq!(ReadError::SizeExceeded.to_string(), "size limit exceeded");
    assert_eq!(ReadError::Encoding.to_string(), "invalid UTF-8");
    assert_eq!(
        ReadError::Format(String::from("empty command")).to_string(),
        "format error: empty command"
    );
    assert_eq!(
        ReadError::ContentLength(String::from("x")).to_string(),
        "invalid content length: x"
    );
}

#[test]
fn split_step_finds_the_first_delimiter() {
    assert_eq!(
        split_step(b"ab\0cd\0", 0, 10),
        Step { yielded: 2, consumed: 3, found: true }
    );
    assert_eq!(
        split_step(b"abcd", 0, 10),
        Step { yielded: 4, consumed: 4, found: false }
    );
    assert_eq!(
        split_step(b"abcd\0", 0, 3),
        Step { yielded: 3, consumed: 3, found: false }
    );
    assert_eq!(
        split_step(b"abc\0", 0, 3),
        Step { yielded: 3, consumed: 4, found: true }
    );
    assert_eq!(
        split_step(b"\0abc", 0, 0),
        Step { yielded: 0, consumed: 1, found: true }
    );
    assert_eq!(
        split_step(b"", 0, 5),
        Step { yielded: 0, consumed: 0, found: false }
    );
}

#[test]
fn mem_reader_shows_chunks() {
    let mut reader = MemReader::with_chunk_size(b"abcdefg".to_vec(), 3);
    assert_eq!(reader.fill_buf(), b"abc");
    reader.consume(2);
    assert_eq!(reader.fill_buf(), b"cde");
    assert_eq!(reader.rest(), b"cdefg");
    reader.consume(3);
    assert_eq!(reader.fill_buf(), b"fg");
    reader.consume(2);
    assert_eq!(reader.fill_buf(), b"");
    let reader = MemReader::with_chunk_size(b"ab".to_vec(), 0);
    assert_eq!(reader.fill_buf(), b"a");
    let reader = MemReader::new(b"abc".to_vec());
    assert_eq!(reader.fill_buf(), b"abc");
}

#[test]
fn limited_reader_fails_past_its_budget() {
    let mut reader = LimitedReader::new(MemReader::new(b"abcdef".to_vec()), 4);
    assert_eq!(reader.fill_buf(), Ok(&b"abcd"[..]));
    reader.consume(4);
    assert_eq!(reader.remaining_budget(), 0);
    assert_eq!(reader.fill_buf(), Err(ReadError::SizeExceeded));
    assert_eq!(reader.into_inner().rest(), b"ef");

    let mut reader = LimitedReader::new(MemReader::new(b"abcd".to_vec()), 4);
    reader.consume(4);
    assert_eq!(reader.fill_buf(), Ok(&b""[..]));
}

#[test]
fn delimited_reader_reads_one_line() {
    let source = LimitedReader::new(MemReader::with_chunk_size(b"first\nsecond\n".to_vec(), 4), 100);
    let mut line = DelimitedReader::new(source, b'\n');
    let mut out: Vec<u8> = Vec::new();
    assert_eq!(line.read(&mut out, 3), Ok(3));
    assert_eq!(line.read(&mut out, 1), Ok(1));
    assert!(!line.delimiter_found());
    assert_eq!(line.read(&mut out, 3), Ok(1));
    assert!(line.delimiter_found());
    assert_eq!(line.read(&mut out, 3), Ok(0));
    assert_eq!(out, b"first".to_vec());
    let source = line.into_inner();
    assert_eq!(source.remaining_budget(), 94);

    let mut line = DelimitedReader::new(source, b'\n');
    let mut out: Vec<u8> = Vec::new();
    assert_eq!(line.read_to_end(&mut out), Ok(6));
    assert_eq!(out, b"second".to_vec());
    assert!(line.delimiter_found());
    let source = line.into_inner();

    let mut line = DelimitedReader::new(source, b'\n');
    let mut out: Vec<u8> = Vec::new();
    assert_eq!(line.read_to_end(&mut out), Ok(0));
    assert!(!line.delimiter_found());
}

#[test]
fn delimited_reader_tells_empty_line_from_end() {
    let source = LimitedReader::new(MemReader::new(b"\nx".to_vec()), 10);
    let mut line = DelimitedReader::new(source, b'\n');
    let mut out: Vec<u8> = Vec::new();
    assert_eq!(line.read_to_end(&mut out), Ok(0));
    assert!(line.delimiter_found());
    assert_eq!(line.into_inner().into_inner().rest(), b"x");
}

#[test]
fn delimited_reader_runs_out_of_budget() {
    let source = LimitedReader::new(MemReader::with_chunk_size(b"abcdef\n".to_vec(), 2), 6);
    let mut line = DelimitedReader::new(source, b'\n');
    let mut out: Vec<u8> = Vec::new();
    assert_eq!(line.read_to_end(&mut out), Err(ReadError::SizeExceeded));
    assert_eq!(out, b"abcdef".to_vec());

    let source = LimitedReader::new(MemReader::with_chunk_size(b"abcdef\n".to_vec(), 2), 7);
    let mut line = DelimitedReader::new(source, b'\n');
    let mut out: Vec<u8> = Vec::new();
    assert_eq!(line.read_to_end(&mut out), Ok(6));

    let source = LimitedReader::new(MemReader::new(b"abcdef".to_vec()), 6);
    let mut line = DelimitedReader::new(source, b'\n');
    let mut out: Vec<u8> = Vec::new();
    assert_eq!(line.read_to_end(&mut out), Ok(6));
    assert!(!line.delimiter_found());
}

#[test]
fn counted_body_never_reads_past_its_length() {
    let mut body = Body::with_length(MemReader::with_chunk_size(b"abcdefgh".to_vec(), 3), 5);
    let mut out: Vec<u8> = Vec::new();
    assert_eq!(body.read(&mut out, 2), 2);
    assert_eq!(body.read(&mut out, 100), 3);
    assert_eq!(out, b"abcde".to_vec());
    assert_eq!(body.read(&mut out, 100), 0);
    assert_eq!(body.read_to_end(&mut out), 0);
    assert_eq!(out, b"abcde".to_vec());
    assert_eq!(body.close().rest(), b"fgh");
}

#[test]
fn counted_body_may_hold_nul_bytes() {
    let mut body = Body::with_length(MemReader::new(b"a\0b\0rest".to_vec()), 3);
    let mut out: Vec<u8> = Vec::new();
    assert_eq!(body.read_to_end(&mut out), 3);
    assert_eq!(out, b"a\0b".to_vec());
    assert_eq!(body.close().rest(), b"rest");
}

#[test]
fn counted_body_ends_with_its_source() {
    let mut body = Body::with_length(MemReader::new(b"abc".to_vec()), 30);
    let mut out: Vec<u8> = Vec::new();
    assert_eq!(body.read_to_end(&mut out), 3);
    assert_eq!(out, b"abc".to_vec());
    assert_eq!(body.close().rest(), b"");
}

#[test]
fn scanned_body_stops_at_the_first_nul() {
    let mut body = Body::new(MemReader::with_chunk_size(b"abcdefg\0hij\0k".to_vec(), 3));
    let mut out: Vec<u8> = Vec::new();
    assert_eq!(body.read(&mut out, 100), 3);
    assert_eq!(body.read(&mut out, 2), 2);
    assert_eq!(body.read(&mut out, 100), 2);
    assert_eq!(body.read(&mut out, 100), 0);
    assert_eq!(body.read(&mut out, 100), 0);
    assert_eq!(out, b"abcdefg".to_vec());
    assert_eq!(body.close().rest(), b"hij\0k");
}

#[test]
fn scanned_body_with_length_zero() {
    let mut body = Body::with_length(MemReader::new(b"ab\0cd".to_vec()), 0);
    let mut out: Vec<u8> = Vec::new();
    assert_eq!(body.read_to_end(&mut out), 2);
    assert_eq!(out, b"ab".to_vec());
    assert_eq!(body.close().rest(), b"cd");
}

#[test]
fn scanned_body_without_nul_ends_with_its_source() {
    let mut body = Body::new(MemReader::with_chunk_size(b"abcde".to_vec(), 2));
    let mut out: Vec<u8> = Vec::new();
    assert_eq!(body.read_to_end(&mut out), 5);
    assert_eq!(out, b"abcde".to_vec());
    assert_eq!(body.close().rest(), b"");
}

#[test]
fn close_drains_an_unread_body() {
    let body = Body::new(MemReader::with_chunk_size(b"abcde\0next".to_vec(), 2));
    assert_eq!(body.close().rest(), b"next");
    let body = Body::with_length(MemReader::with_chunk_size(b"abcde\0next".to_vec(), 2), 5);
    assert_eq!(body.close().rest(), b"next");
    let body = Body::with_length(MemReader::new(b"abcdeXnext".to_vec()), 5);
    assert_eq!(body.close().rest(), b"Xnext");
}
