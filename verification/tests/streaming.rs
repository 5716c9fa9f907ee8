use flowd::parser::FrameStep;
use flowd::parser::Parser;
use flowd::parser::RunStep;

#[test]
fn new_parser_is_empty() {
    let p = Parser::new();
    assert_eq!(p.available_data(), 0);
    assert_eq!(p.capacity(), 1000);
    assert_eq!(p.available_space(), 1000);
}

#[test]
fn parser_yields_frames_in_turn() {
    let mut p = Parser::new();
    let data = b"2a\nk:v\n\n\x002b\nlength:1\n\nZ\x002c\n";
    assert_eq!(p.fill(data), data.len());
    assert_eq!(p.available_data(), data.len());
    match p.next_frame() {
        FrameStep::Frame(f) => assert_eq!(f.frame_type, b"a".to_vec()),
        _ => panic!("first frame missing"),
    }
    match p.next_frame() {
        FrameStep::Frame(f) => {
            assert_eq!(f.frame_type, b"b".to_vec());
            assert_eq!(f.body, b"Z".to_vec());
        }
        _ => panic!("second frame missing"),
    }
    let left = p.available_data();
    assert_eq!(left, 3);
    match p.next_frame() {
        FrameStep::Incomplete(n) => assert_eq!(n, 1),
        _ => panic!("the third frame is not complete yet"),
    }
    assert_eq!(p.available_data(), left);
    p.fill(b"\n\x00");
    match p.next_frame() {
        FrameStep::Frame(f) => assert_eq!(f.frame_type, b"c".to_vec()),
        _ => panic!("third frame missing"),
    }
    assert_eq!(p.available_data(), 0);
}

#[test]
fn parser_reports_errors_without_consuming() {
    let mut p = Parser::new();
    p.fill(b"x");
    assert!(matches!(p.next_frame(), FrameStep::Error));
    assert_eq!(p.available_data(), 1);
    let mut q = Parser::new();
    let bad = b"2a\nlength:q\n\n\0";
    q.fill(bad);
    assert!(matches!(q.next_frame(), FrameStep::InvalidLength));
    assert_eq!(q.available_data(), bad.len());
}

#[test]
fn parser_fill_stops_at_free_space() {
    let mut p = Parser::new();
    let big = vec![b'2'; 1500];
    assert_eq!(p.fill(&big), 1000);
    assert_eq!(p.available_data(), 1000);
    assert_eq!(p.available_space(), 0);
}

#[test]
fn parser_grows_when_a_body_needs_more_room() {
    let mut p = Parser::new();
    p.fill(b"2a\nlength:5000\n\nxy");
    match p.next_frame() {
        FrameStep::Incomplete(n) => {
            assert_eq!(n, 5000);
            assert_eq!(p.grow_for(n), Some((1000, 2000)));
            assert_eq!(p.capacity(), 2000);
            assert_eq!(p.grow_for(n), Some((2000, 4000)));
            assert_eq!(p.grow_for(n), Some((4000, 8000)));
            assert_eq!(p.grow_for(n), None);
        }
        _ => panic!("the frame is not complete"),
    }
    assert_eq!(p.available_data(), 18);
    assert_eq!(p.grow_for(1), None);
    assert_eq!(p.capacity(), 8000);
}

#[test]
fn capacity_only_doubles_over_a_run() {
    let mut p = Parser::new();
    let mut sizes = vec![p.capacity()];
    let mut body = b"2a\nlength:3000\n\n".to_vec();
    body.extend(vec![b'x'; 3000]);
    body.push(0);
    let mut fed = 0;
    let mut frames = 0;
    while frames == 0 {
        fed += p.fill(&body[fed..]);
        sizes.push(p.capacity());
        match p.next_frame() {
            FrameStep::Frame(f) => {
                assert_eq!(f.body.len(), 3000);
                frames += 1;
            }
            FrameStep::Incomplete(n) => {
                p.grow_for(n);
            }
            _ => panic!("the frame is well formed"),
        }
        sizes.push(p.capacity());
    }
    assert_eq!(p.capacity(), 4000);
    for w in sizes.windows(2) {
        assert!(w[1] == w[0] || w[1] == 2 * w[0]);
    }
    let last = *sizes.last().unwrap();
    assert_eq!(last % 1000, 0);
    assert!((last / 1000).is_power_of_two());
}

#[test]
fn free_space_after_fill_and_taking_frames() {
    let mut p = Parser::new();
    let mut frame = b"2a\nlength:580\n\n".to_vec();
    frame.extend(vec![b'x'; 580]);
    frame.push(0);
    assert_eq!(frame.len(), 596);
    assert_eq!(p.fill(&frame), 596);
    assert_eq!(p.available_space(), 404);
    assert_eq!(p.fill(b"2b\n"), 3);
    assert_eq!(p.available_space(), 401);
    match p.next_frame() {
        FrameStep::Frame(f) => assert_eq!(f.body.len(), 580),
        _ => panic!("the first frame is whole"),
    }
    assert_eq!(p.available_data(), 3);
    assert_eq!(p.available_space(), 997);
    let mut q = Parser::new();
    q.fill(b"2a\n\n\x002b\n");
    match q.next_frame() {
        FrameStep::Frame(f) => assert_eq!(f.frame_type, b"a".to_vec()),
        _ => panic!("the first frame is whole"),
    }
    assert_eq!(q.available_data(), 3);
    assert_eq!(q.available_space(), 992);
}

#[test]
fn run_step_decides_each_round() {
    let mut p = Parser::new();
    assert!(matches!(p.run_step(b""), RunStep::Stop));
    match p.run_step(b"2a\nk:v\n\n\x002b\n\n\x002c\nlength:1500\n\n") {
        RunStep::ReadMore(frames, growth) => {
            assert_eq!(frames.len(), 2);
            assert_eq!(frames[0].frame_type, b"a".to_vec());
            assert_eq!(frames[1].frame_type, b"b".to_vec());
            assert_eq!(growth, Some((1000, 2000)));
        }
        _ => panic!("two frames and a frame that needs more"),
    }
    assert_eq!(p.capacity(), 2000);
    assert_eq!(p.available_data(), 16);
    let mut rest = vec![b'y'; 1500];
    rest.push(0);
    match p.run_step(&rest) {
        RunStep::ReadMore(frames, growth) => {
            assert_eq!(frames.len(), 1);
            assert_eq!(frames[0].body.len(), 1500);
            assert_eq!(growth, None);
        }
        _ => panic!("the third frame is whole"),
    }
    assert_eq!(p.available_data(), 0);
    assert!(matches!(p.run_step(b""), RunStep::Stop));
    let mut e = Parser::new();
    assert!(matches!(e.run_step(b"3a\n"), RunStep::ParseError));
    let mut l = Parser::new();
    assert!(matches!(l.run_step(b"2a\nlength:x\n\n"), RunStep::InvalidLength));
}
