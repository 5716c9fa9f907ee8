use flowd::chars::is_ascii_vchar;
use flowd::chars::is_ascii_vchar2;
use flowd::chars::is_colon;
use flowd::chars::is_newline;
use flowd::chars::is_not_colon;
use flowd::decimal::format_usize;
use flowd::decimal::parse_usize;
use flowd::frame::Header;
use flowd::frame::IP;
use flowd::wire::alphanumeric1_noncolon;
use flowd::wire::alphanumeric1_nonnewline;
use flowd::wire::body_get_length;
use flowd::wire::body_length;
use flowd::wire::frame_full;
use flowd::wire::header_line;
use flowd::wire::headers;
use flowd::wire::try_frame_full;
use flowd::wire::Parsed;
use flowd::wire::FieldErrorKind;
use flowd::wire::Split;

const SAMPLE: &[u8] = b"2data\ntype:TCPPacket\nport:IN\nconnid:1\nlength:2\n\na\n\0";

#[test]
fn byte_classes() {
    assert!(is_ascii_vchar('!'));
    assert!(is_ascii_vchar('~'));
    assert!(!is_ascii_vchar(' '));
    assert!(!is_ascii_vchar('\u{7f}'));
    assert!(!is_ascii_vchar('é'));
    assert!(is_ascii_vchar2(33));
    assert!(is_ascii_vchar2(126));
    assert!(!is_ascii_vchar2(32));
    assert!(!is_ascii_vchar2(127));
    assert!(is_newline(b'\n'));
    assert!(!is_newline(b'\r'));
    assert!(is_colon(b':'));
    assert!(!is_colon(b';'));
    assert!(is_not_colon(b'a'));
    assert!(!is_not_colon(b':'));
}

#[test]
fn decimal_text() {
    assert_eq!(parse_usize(b"0"), Some(0));
    assert_eq!(parse_usize(b"1234"), Some(1234));
    assert_eq!(parse_usize(b"+42"), Some(42));
    assert_eq!(parse_usize(b"007"), Some(7));
    assert_eq!(parse_usize(b""), None);
    assert_eq!(parse_usize(b"+"), None);
    assert_eq!(parse_usize(b"-1"), None);
    assert_eq!(parse_usize(b"12a"), None);
    assert_eq!(parse_usize(b" 1"), None);
    assert_eq!(parse_usize(b"99999999999999999999999999"), None);
    let max = usize::MAX.to_string();
    assert_eq!(parse_usize(max.as_bytes()), Some(usize::MAX));
    assert_eq!(format_usize(0), b"0".to_vec());
    assert_eq!(format_usize(10), b"10".to_vec());
    assert_eq!(format_usize(usize::MAX), max.into_bytes());
    for n in [0usize, 1, 9, 10, 99, 100, 65535, 1 << 40] {
        assert_eq!(parse_usize(&format_usize(n)), Some(n));
    }
}

#[test]
fn fields_are_runs_of_alphanumeric_bytes() {
    assert_eq!(alphanumeric1_noncolon(b"key:value"), Split::Taken(3));
    assert_eq!(alphanumeric1_noncolon(b"Key9:value"), Split::Taken(4));
    assert_eq!(
        alphanumeric1_noncolon(b":value"),
        Split::Empty(FieldErrorKind::AlphaNumeric)
    );
    assert_eq!(alphanumeric1_noncolon(b"key"), Split::Incomplete);
    assert_eq!(alphanumeric1_noncolon(b""), Split::Incomplete);
    assert_eq!(alphanumeric1_noncolon(b"a-:"), Split::Taken(1));
    assert_eq!(alphanumeric1_noncolon(b"k\ney:v"), Split::Taken(1));
    assert_eq!(alphanumeric1_nonnewline(b"data\nrest"), Split::Taken(4));
    assert_eq!(alphanumeric1_nonnewline(b"a \n"), Split::Taken(1));
    assert_eq!(
        alphanumeric1_nonnewline(b"\nrest"),
        Split::Empty(FieldErrorKind::Escaped)
    );
    assert_eq!(alphanumeric1_nonnewline(b"data"), Split::Incomplete);
}

#[test]
fn header_line_reads_key_and_value() {
    match header_line(b"connid:1\nrest") {
        Parsed::Done(n, (k, v)) => {
            assert_eq!(n, 9);
            assert_eq!(k, b"connid".to_vec());
            assert_eq!(v, b"1".to_vec());
        }
        other => panic!("unexpected {:?}", other),
    }
    assert!(matches!(header_line(b"conn-id:1\n"), Parsed::Error));
    assert!(matches!(header_line(b"a:b:c\n"), Parsed::Error));
    assert!(matches!(header_line(b":v\n"), Parsed::Error));
    assert!(matches!(header_line(b"k:\n"), Parsed::Error));
    assert!(matches!(header_line(b"k:v"), Parsed::Incomplete(1)));
    assert!(matches!(header_line(b"k"), Parsed::Incomplete(1)));
}

#[test]
fn headers_up_to_the_empty_line() {
    match headers(b"a:1\nb:2\n\nbody") {
        Parsed::Done(n, hs) => {
            assert_eq!(n, 9);
            assert_eq!(hs.len(), 2);
            assert_eq!(hs[1], (b"b".to_vec(), b"2".to_vec()));
        }
        other => panic!("unexpected {:?}", other),
    }
    assert!(matches!(headers(b"a:1\n"), Parsed::Incomplete(1)));
    assert!(matches!(headers(b"a:1\n:x\n\n"), Parsed::Error));
}

#[test]
fn body_length_from_first_length_header() {
    let hs = vec![
        (b"x".to_vec(), b"1".to_vec()),
        (b"length".to_vec(), b"12".to_vec()),
        (b"length".to_vec(), b"3".to_vec()),
    ];
    assert_eq!(body_get_length(&hs), 12);
    assert_eq!(body_length(&hs), Some(12));
    assert_eq!(body_get_length(&vec![]), 0);
    let bad = vec![(b"length".to_vec(), b"zz".to_vec())];
    assert_eq!(body_length(&bad), None);
}

#[test]
fn frame_full_parses_the_sample_frame() {
    match frame_full(SAMPLE) {
        Parsed::Done(n, f) => {
            assert_eq!(n, SAMPLE.len());
            assert_eq!(f.frame_type, b"data".to_vec());
            assert_eq!(f.body_type, b"TODO".to_vec());
            assert_eq!(f.port, b"TODO".to_vec());
            assert_eq!(f.headers.len(), 4);
            assert_eq!(f.headers[0], (b"type".to_vec(), b"TCPPacket".to_vec()));
            assert_eq!(f.headers[3], (b"length".to_vec(), b"2".to_vec()));
            assert_eq!(f.body, b"a\n".to_vec());
        }
        _ => panic!("the sample frame did not parse"),
    }
}

#[test]
fn frame_full_is_streaming() {
    assert!(matches!(frame_full(b""), Parsed::Incomplete(1)));
    assert!(matches!(frame_full(b"2data"), Parsed::Incomplete(1)));
    assert!(matches!(frame_full(b"2data\nk:v\n"), Parsed::Incomplete(1)));
    assert!(matches!(frame_full(b"2data\nlength:5\n\nab"), Parsed::Incomplete(5)));
    assert!(matches!(frame_full(b"2data\nlength:2\n\nab"), Parsed::Incomplete(1)));
    for cut in 0..SAMPLE.len() {
        assert!(matches!(frame_full(&SAMPLE[..cut]), Parsed::Incomplete(_)));
    }
    match frame_full(b"2d\n\nX") {
        Parsed::Done(n, f) => {
            assert_eq!(n, 4);
            assert!(f.body.is_empty());
        }
        _ => panic!("a frame followed by other bytes did not parse"),
    }
}

#[test]
fn frame_full_errors() {
    assert!(matches!(frame_full(b"3data\n\n\0"), Parsed::Error));
    assert!(matches!(frame_full(b"2\n\n\0"), Parsed::Error));
    assert!(matches!(frame_full(b"2data\n:v\n\n\0"), Parsed::Error));
    assert!(matches!(frame_full(b"2da ta\n\n\0"), Parsed::Error));
    assert!(matches!(
        frame_full(b"2data\ntype:TCPPacket\nport:IN\nconn-id:1\nlength:2\n\na\n\0"),
        Parsed::Error
    ));
    assert!(try_frame_full(b"2data\nlength:x\n\n\0").is_none());
    assert!(try_frame_full(b"2data\nlength:1\n\nx\0").is_some());
}

#[test]
fn frame_full_reads_marshalled_frame() {
    let frame = IP {
        frame_type: "t".to_owned(),
        body_type: String::new(),
        port: "P".to_owned(),
        headers: vec![Header("k".to_owned(), "v".to_owned())],
        body: vec![1, 2, 3],
    };
    let mut bytes = vec![];
    frame.marshal(&mut bytes).expect("marshal");
    match frame_full(&bytes) {
        Parsed::Done(n, f) => {
            assert_eq!(n, bytes.len());
            assert_eq!(f.frame_type, b"t".to_vec());
            assert_eq!(
                f.headers,
                vec![
                    (b"port".to_vec(), b"P".to_vec()),
                    (b"k".to_vec(), b"v".to_vec()),
                    (b"length".to_vec(), b"3".to_vec()),
                ]
            );
            assert_eq!(f.body, vec![1, 2, 3]);
        }
        _ => panic!("a marshalled frame did not parse"),
    }
}

#[test]
fn frame_full_ignores_what_follows_a_frame() {
    let mut longer = SAMPLE.to_vec();
    longer.extend_from_slice(b"2next\n");
    match (frame_full(SAMPLE), frame_full(&longer)) {
        (Parsed::Done(n1, f1), Parsed::Done(n2, f2)) => {
            assert_eq!(n1, n2);
            assert_eq!(f1.frame_type, f2.frame_type);
            assert_eq!(f1.headers, f2.headers);
            assert_eq!(f1.body, f2.body);
        }
        _ => panic!("the sample frame did not parse"),
    }
}
