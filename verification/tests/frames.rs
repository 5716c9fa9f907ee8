use flowd::frame::Header;
use flowd::frame::MarshalError;
use flowd::frame::IP;
use flowd::read::line_panics;
use flowd::read::parse_frame;
use flowd::read::FrameBuilder;
use flowd::read::ParseFrameError;

fn sample_frame() -> IP {
    IP {
        frame_type: "data".to_owned(),
        body_type: "TCPPacket".to_owned(),
        port: "IN".to_owned(),
        headers: vec![Header("conn-id".to_owned(), "1".to_owned())],
        body: b"a\n".to_vec(),
    }
}

#[test]
fn parse_frame_parses() {
    let frame_str_v2: String = format!(
        "2{}\n{}\n{}\n{}\n{}\n\n{}\0",
        "data", "type:TCPPacket", "port:IN", "conn-id:1", "length:2", "a\n"
    );
    let ip = parse_frame(frame_str_v2.as_bytes());
    let (ip, _) = ip.expect("unpacking parse result");
    assert_eq!(ip.frame_type, "data");
    assert_eq!(ip.body_type, "TCPPacket");
    assert_eq!(ip.port, "IN");
    assert_eq!(ip.headers[0].0, "conn-id");
    assert_eq!(ip.headers[0].1, "1");
    let body = String::from_utf8(ip.body).expect("parsed body to utf8 string");
    assert_eq!(body, "a\n");
}

#[test]
fn marshal_frame_marshals() {
    let frame = sample_frame();
    let mut buffer: Vec<u8> = vec![];
    match frame.marshal(&mut buffer) {
        Err(e) => panic!("{:?}", e),
        _ => (),
    };
    let marshaled_str: String =
        String::from_utf8(buffer).expect("converting marshaled bytes to utf8 string");
    let frame_str_v2: String = format!(
        "2{}\n{}\n{}\n{}\n{}\n\n{}\0",
        "data", "type:TCPPacket", "port:IN", "conn-id:1", "length:2", "a\n"
    );
    assert_eq!(frame_str_v2, marshaled_str);
}

#[test]
fn parse_frame_reports_consumed_bytes() {
    let data = b"2data\ntype:T\n\n\0rest";
    let (ip, used) = parse_frame(data).expect("frame");
    assert_eq!(used, 15);
    assert_eq!(ip.body_type, "T");
    assert_eq!(ip.port, "");
    assert!(ip.headers.is_empty());
    assert!(ip.body.is_empty());
}

#[test]
fn parse_frame_without_terminator_takes_everything() {
    let data = b"2x\nlength:3\n\nabc";
    let (ip, used) = parse_frame(data).expect("frame");
    assert_eq!(used, data.len());
    assert_eq!(ip.frame_type, "x");
    assert_eq!(ip.body, b"abc".to_vec());
}

#[test]
fn parse_frame_strips_carriage_returns_of_header_lines_only() {
    let data = b"2x\r\nport:IN\r\nk:v\r\n\r\n\0";
    let (ip, used) = parse_frame(data).expect("frame");
    assert_eq!(used, data.len());
    assert_eq!(ip.frame_type, "x\r");
    assert_eq!(ip.port, "IN");
    assert_eq!(ip.headers[0].0, "k");
    assert_eq!(ip.headers[0].1, "v");
}

#[test]
fn parse_frame_last_well_known_field_wins() {
    let data = b"2x\nport:A\nport:B\nkey:with:colons\n\n\0";
    let (ip, _) = parse_frame(data).expect("frame");
    assert_eq!(ip.port, "B");
    assert_eq!(ip.headers.len(), 1);
    assert_eq!(ip.headers[0].0, "key");
    assert_eq!(ip.headers[0].1, "with:colons");
}

#[test]
fn parse_frame_refuses_header_without_colon() {
    let data = b"2x\nnocolon\n\n\0";
    match parse_frame(data) {
        Err(e) => assert_eq!(e, ParseFrameError::NoColon),
        Ok(_) => panic!("a header line without colon was accepted"),
    }
}

#[test]
fn parse_frame_refuses_invalid_utf8_header() {
    let data = b"2x\nk:\xff\n\n\0";
    match parse_frame(data) {
        Err(e) => assert_eq!(e, ParseFrameError::InvalidUtf8),
        Ok(_) => panic!("a header line that is not UTF-8 was accepted"),
    }
}

#[test]
fn parse_frame_reads_to_end_of_stream_without_empty_line() {
    let data = b"2x\nk:v";
    let (ip, used) = parse_frame(data).expect("frame");
    assert_eq!(used, data.len());
    assert_eq!(ip.headers[0].1, "v");
}

#[test]
fn marshal_refuses_empty_frame_type_after_version() {
    let mut frame = sample_frame();
    frame.frame_type = String::new();
    let mut buffer: Vec<u8> = b"x".to_vec();
    assert_eq!(frame.marshal(&mut buffer), Err(MarshalError::EmptyFrameType));
    assert_eq!(buffer, b"x2".to_vec());
}

#[test]
fn marshal_without_body_type_port_or_body() {
    let frame = IP {
        frame_type: "ctl".to_owned(),
        body_type: String::new(),
        port: String::new(),
        headers: vec![],
        body: vec![],
    };
    let mut buffer: Vec<u8> = vec![];
    assert_eq!(frame.marshal(&mut buffer), Ok(()));
    assert_eq!(buffer, b"2ctl\n\n\0".to_vec());
}

#[test]
fn marshal_then_parse_frame_gives_the_frame_back() {
    let frame = IP {
        frame_type: "data".to_owned(),
        body_type: "Ünïcode".to_owned(),
        port: "OUT".to_owned(),
        headers: vec![
            Header("a".to_owned(), "1:2".to_owned()),
            Header(String::new(), String::new()),
        ],
        body: vec![0, 10, 13, 255, 2],
    };
    let mut buffer: Vec<u8> = vec![];
    frame.marshal(&mut buffer).expect("marshal");
    let (back, used) = parse_frame(&buffer).expect("parse");
    assert_eq!(used, buffer.len());
    assert_eq!(back.frame_type, frame.frame_type);
    assert_eq!(back.body_type, frame.body_type);
    assert_eq!(back.port, frame.port);
    assert_eq!(back.headers.len(), 2);
    assert_eq!(back.headers[0].0, "a");
    assert_eq!(back.headers[0].1, "1:2");
    assert_eq!(back.headers[1].0, "");
    assert_eq!(back.headers[1].1, "");
    assert_eq!(back.body, frame.body);
}

#[test]
fn frame_builder_reads_lines() {
    let mut builder = FrameBuilder::new("data".to_owned());
    assert!(!line_panics("type:TCPPacket"));
    assert_eq!(builder.add_line("type:TCPPacket"), Ok(true));
    assert_eq!(builder.add_line("length:3"), Ok(true));
    assert_eq!(builder.add_line("x:y"), Ok(true));
    assert_eq!(builder.add_line("bad"), Err(ParseFrameError::NoColon));
    assert_eq!(builder.body_length(), 3);
    assert_eq!(builder.add_line(""), Ok(false));
    let ip = builder.finish(b"abc".to_vec());
    assert_eq!(ip.frame_type, "data");
    assert_eq!(ip.body_type, "TCPPacket");
    assert_eq!(ip.headers.len(), 1);
    assert_eq!(ip.body, b"abc".to_vec());
}

#[test]
fn line_panics_on_length_that_is_no_number() {
    assert!(line_panics("length:abc"));
    assert!(line_panics("length:"));
    assert!(line_panics("length:-1"));
    assert!(!line_panics("length:+7"));
    assert!(!line_panics("lengthy:abc"));
    assert!(!line_panics("no colon"));
}
