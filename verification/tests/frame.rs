use stomp_frame::{Body, Command, Frame, Header, MemReader};

#[test]
fn read_header() {
    let input = b"Content-Type: application/json\r\nContent-Length: 30\r\nName: Joshua\r\n";
    let reader = MemReader::new(input.to_vec());
    let (header, _) = Header::read_from(reader).unwrap();

    let mut target = Header::new();
    target.add_field("Content-Type", "application/json");
    target.add_field("Content-Length", "30");
    target.add_field("Name", "Joshua");
    assert_eq!(target, header);
}

#[test]
fn write_header() {
    let target = "Content-Length: 30\nContent-Type: application/json\n";

    let mut header = Header::new();
    header.add_field("Content-Type", "application/json");
    header.add_field("Content-Length", "30");

    let mut buffer: Vec<u8> = Vec::new();
    header.write_to(&mut buffer);
    let data = std::str::from_utf8(&buffer).unwrap();
    assert_eq!(target, data)
}

#[test]
fn write_header_encode_colon() {
    let target = "Content-Length: 30\nContent-Type: vnd\\capplication/json\n";

    let mut header = Header::new();
    header.add_field("Content-Type", "vnd:application/json");
    header.add_field("Content-Length", "30");

    let mut buffer: Vec<u8> = Vec::new();
    header.write_to(&mut buffer);
    let data = std::str::from_utf8(&buffer).unwrap();
    assert_eq!(target, data)
}

#[test]
fn write_frame() {
    let target = "CONNECT\nContent-Length: 30\nContent-Type: application/json\n\n\0";
    let input = MemReader::new(Vec::new());
    let mut frame = Frame::new(Command::Connect, Body::with_length(input, 30));
    frame.header.add_field("Content-Type", "application/json");
    frame.header.add_field("Content-Length", "30");

    let mut buffer: Vec<u8> = Vec::new();
    frame.write_to(&mut buffer);
    let data = std::str::from_utf8(&buffer).unwrap();
    assert_eq!(target, data)
}

#[test]
fn write_frame_with_body() {
    let target =
        "CONNECT\nContent-Length: 30\nContent-Type: application/json\n\n{\"name\":\"Joshua\"}\0";
    let input = MemReader::new(b"{\"name\":\"Joshua\"}".to_vec());
    let mut frame = Frame::new(Command::Connect, Body::with_length(input, 30));
    frame.header.add_field("Content-Type", "application/json");
    frame.header.add_field("Content-Length", "30");

    let mut buffer: Vec<u8> = Vec::new();
    frame.write_to(&mut buffer);
    let data = std::str::from_utf8(&buffer).unwrap();
    assert_eq!(target, data)
}

#[test]
fn read_frame_with_body_with_content_length() {
    let input =
        b"CONNECT\nContent-Length: 17\nContent-Type: application/json\n\n{\"name\":\"Joshua\"}\0";
    let reader = MemReader::new(input.to_vec());
    let mut frame = Frame::read_from(reader).unwrap();

    let mut target_header = Header::new();
    target_header.add_field("Content-Type", "application/json");
    target_header.add_field("Content-Length", "17");

    let target_body = b"{\"name\":\"Joshua\"}".to_vec();

    let mut buffer: Vec<u8> = Vec::new();
    frame.body.read_to_end(&mut buffer);

    assert_eq!(Command::Connect, frame.command);
    assert_eq!(target_header, frame.header);
    assert_eq!(target_body, buffer);
}

#[test]
fn read_frame_with_body_without_content_length() {
    let input =
        b"CONNECT\nContent-Type: application/json\n\n{\"name\":\"Joshua\"}\0(Should not read this)";
    let reader = MemReader::new(input.to_vec());
    let mut frame = Frame::read_from(reader).unwrap();

    let mut target_header = Header::new();
    target_header.add_field("Content-Type", "application/json");

    let target_body = b"{\"name\":\"Joshua\"}".to_vec();

    let mut buffer: Vec<u8> = Vec::new();
    frame.body.read_to_end(&mut buffer);

    assert_eq!(Command::Connect, frame.command);
    assert_eq!(target_header, frame.header);
    assert_eq!(target_body, buffer);
}

#[test]
fn content_length_frame_leaves_what_follows_the_terminator() {
    let input =
        b"CONNECT\nContent-Length: 17\nContent-Type: application/json\n\n{\"name\":\"Joshua\"}\0NEXT";
    let mut frame = Frame::read_from(MemReader::new(input.to_vec())).unwrap();
    assert_eq!(frame.command, Command::Connect);
    assert_eq!(
        frame.header.get_field("Content-Length"),
        Some(&vec![String::from("17")])
    );
    assert_eq!(
        frame.header.get_field("Content-Type"),
        Some(&vec![String::from("application/json")])
    );
    let mut body: Vec<u8> = Vec::new();
    assert_eq!(frame.body.read_to_end(&mut body), 17);
    assert_eq!(body, b"{\"name\":\"Joshua\"}".to_vec());
    assert_eq!(frame.body.read_to_end(&mut body), 0);
    let rest = frame.close();
    assert_eq!(rest.rest(), b"NEXT");
}

#[test]
fn scanned_frame_leaves_trailing_bytes() {
    let input = b"CONNECT\nContent-Type: application/json\n\n{\"name\":\"Joshua\"}\0TRAILING";
    let mut frame = Frame::read_from(MemReader::new(input.to_vec())).unwrap();
    let mut body: Vec<u8> = Vec::new();
    frame.body.read_to_end(&mut body);
    assert_eq!(body, b"{\"name\":\"Joshua\"}".to_vec());
    let rest = frame.close();
    assert_eq!(rest.rest(), b"TRAILING");
}

#[test]
fn closing_an_unread_frame_drains_its_body() {
    let input = b"SEND\n\nhello\0MESSAGE\n\nworld\0";
    let first = Frame::read_from(MemReader::new(input.to_vec())).unwrap();
    assert_eq!(first.command, Command::Send);
    let reader = first.close();
    let mut second = Frame::read_from(reader).unwrap();
    assert_eq!(second.command, Command::Message);
    let mut body: Vec<u8> = Vec::new();
    second.body.read_to_end(&mut body);
    assert_eq!(body, b"world".to_vec());
    assert_eq!(second.close().rest(), b"");
}

#[test]
fn closing_a_counted_frame_takes_the_terminator() {
    let input = b"SEND\nContent-Length: 3\n\na\0b\0ACK\n\n\0";
    let first = Frame::read_from(MemReader::new(input.to_vec())).unwrap();
    let reader = first.close();
    assert_eq!(reader.rest(), b"ACK\n\n\0");
    let second = Frame::read_from(reader).unwrap();
    assert_eq!(second.command, Command::Ack);
}

#[test]
fn round_trip_of_a_frame() {
    let mut frame = Frame::new(
        Command::Send,
        Body::new(MemReader::new(b"payload bytes".to_vec())),
    );
    frame.header.add_field("destination", "/queue/a:b");
    frame.header.add_field("note", "back\\slash\nnewline\rreturn");
    let mut wire: Vec<u8> = Vec::new();
    let n = frame.write_to(&mut wire);
    assert_eq!(n, wire.len() as u64);

    let mut parsed = Frame::read_from(MemReader::new(wire)).unwrap();
    assert_eq!(parsed.command, Command::Send);
    assert_eq!(parsed.header, frame.header);
    let mut body: Vec<u8> = Vec::new();
    parsed.body.read_to_end(&mut body);
    assert_eq!(body, b"payload bytes".to_vec());
    assert_eq!(parsed.close().rest(), b"");
}

#[test]
fn frame_write_counts_bytes() {
    let mut frame = Frame::new(Command::Ack, Body::new(MemReader::new(b"xy\0z".to_vec())));
    let mut wire: Vec<u8> = b"..".to_vec();
    assert_eq!(frame.write_to(&mut wire), 8);
    assert_eq!(wire, b"..ACK\n\nxy\0".to_vec());
    assert_eq!(frame.close().rest(), b"z");
}

#[test]
fn with_header_keeps_the_parts() {
    let mut header = Header::new();
    header.add_field("id", "7");
    let frame = Frame::with_header(
        Command::Receipt,
        header,
        Body::new(MemReader::new(Vec::new())),
    );
    assert_eq!(frame.command, Command::Receipt);
    assert_eq!(frame.header.get_field("id"), Some(&vec![String::from("7")]));
}

#[test]
fn round_trip_with_declared_length() {
    let payload = b"a\0b\0\nc".to_vec();
    let mut frame = Frame::new(
        Command::Message,
        Body::with_length(MemReader::with_chunk_size(payload.clone(), 2), 6),
    );
    frame.header.add_field("Content-Length", "6");
    frame.header.add_field("subscription", "s-1");
    let mut wire: Vec<u8> = Vec::new();
    frame.write_to(&mut wire);
    wire.extend_from_slice(b"RECEIPT\nreceipt-id: 9\n\n\0");

    let mut first = Frame::read_from(MemReader::with_chunk_size(wire, 5)).unwrap();
    assert_eq!(first.command, Command::Message);
    assert_eq!(first.header, frame.header);
    let mut body: Vec<u8> = Vec::new();
    first.body.read_to_end(&mut body);
    assert_eq!(body, payload);

    let mut second = Frame::read_from(first.close()).unwrap();
    assert_eq!(second.command, Command::Receipt);
    assert_eq!(
        second.header.get_field("receipt-id"),
        Some(&vec![String::from("9")])
    );
    let mut body: Vec<u8> = Vec::new();
    assert_eq!(second.body.read_to_end(&mut body), 0);
    assert_eq!(second.close().rest(), b"");
}

#[test]
fn frames_read_the_same_whatever_the_chunk_size() {
    let input = b"SEND\r\ndestination: /queue/a\nnote: x\\cy\n\nfirst body\0MESSAGE\nContent-Length: 4\n\na\0\0b\0tail";
    for chunk in 1..40 {
        let mut first =
            Frame::read_from(MemReader::with_chunk_size(input.to_vec(), chunk)).unwrap();
        assert_eq!(first.command, Command::Send);
        assert_eq!(
            first.header.get_field("destination"),
            Some(&vec![String::from("/queue/a")])
        );
        assert_eq!(first.header.get_field("note"), Some(&vec![String::from("x:y")]));
        let mut body: Vec<u8> = Vec::new();
        assert_eq!(first.body.read_to_end(&mut body), 10);
        assert_eq!(body, b"first body".to_vec());

        let mut second = Frame::read_from(first.close()).unwrap();
        assert_eq!(second.command, Command::Message);
        let mut body: Vec<u8> = Vec::new();
        assert_eq!(second.body.read_to_end(&mut body), 4);
        assert_eq!(body, b"a\0\0b".to_vec());
        assert_eq!(second.close().rest(), b"tail");
    }
}

#[test]
fn content_length_zero_reads_up_to_the_terminator() {
    let input = b"SEND\nContent-Length: 0\n\nabc\0rest";
    let mut frame = Frame::read_from(MemReader::new(input.to_vec())).unwrap();
    let mut body: Vec<u8> = Vec::new();
    assert_eq!(frame.body.read_to_end(&mut body), 3);
    assert_eq!(body, b"abc".to_vec());
    assert_eq!(frame.close().rest(), b"rest");
}

#[test]
fn only_the_first_content_length_counts() {
    let input = b"SEND\nContent-Length: +2\nContent-Length: 9\n\nabcdef\0";
    let mut frame = Frame::read_from(MemReader::new(input.to_vec())).unwrap();
    assert_eq!(
        frame.header.get_field("Content-Length"),
        Some(&vec![String::from("+2"), String::from("9")])
    );
    let mut body: Vec<u8> = Vec::new();
    assert_eq!(frame.body.read_to_end(&mut body), 2);
    assert_eq!(body, b"ab".to_vec());
    assert_eq!(frame.close().rest(), b"cdef\0");
}
