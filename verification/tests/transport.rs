use bytes::Bytes;
use spritebox::protocol::{DirEntry, FileKind, Frame, Push, Request, RequestId, Response};
use spritebox::transport::controls::{
    approx_frame_size, Controls, InMemoryTransport, Passage,
};
use spritebox::transport::framing::{
    eof_message, frame_body, frame_length, stdin_message, Channel, FrameBuffer, Taken,
    MAX_FRAME_BYTES,
};
use spritebox::transport::TransportError;

fn req(id: RequestId) -> Frame {
    Frame::Request { id, body: Request::GetAttr { ino: 1 } }
}

fn resp(id: RequestId) -> Frame {
    Frame::Response { id, body: Response::Done }
}

fn resp_bytes(id: RequestId, payload: &'static [u8]) -> Frame {
    Frame::Response { id, body: Response::bytes(Bytes::from_static(payload), 0) }
}

fn passed(passage: Passage) -> Frame {
    match passage {
        Passage::Forwarded { frame, .. } => frame,
        other => panic!("not forwarded: {other:?}"),
    }
}

#[test]
fn happy_path_round_trip() {
    let (mut to_server, mut to_client) = InMemoryTransport::pair();
    assert_eq!(passed(to_server.carry(req(1), false)), req(1));
    assert_eq!(passed(to_client.carry(resp(1), false)), resp(1));
}

#[test]
fn drop_next_drops_frames() {
    let mut c = Controls::new();
    c.drop_next(2);
    assert_eq!(c.carry(req(1), false), Passage::Dropped);
    assert_eq!(c.carry(req(2), false), Passage::Dropped);
    assert_eq!(passed(c.carry(req(3), false)), req(3));
}

#[test]
fn disconnect_now_closes_recv() {
    let mut c = Controls::new();
    assert_eq!(passed(c.carry(req(1), false)), req(1));
    c.disconnect_now();
    assert_eq!(c.carry(req(2), false), Passage::Closed);
    assert_eq!(c.carry(req(3), false), Passage::Closed);
}

#[test]
fn disconnect_after_bytes() {
    let mut c = Controls::new();
    c.disconnect_after_bytes(150);
    assert_eq!(passed(c.carry(req(1), false)), req(1));
    assert_eq!(passed(c.carry(req(2), false)), req(2));
    assert_eq!(c.bytes_through(), 128);
    assert_eq!(c.carry(req(3), false), Passage::Closed);
    assert!(c.is_disconnected());
}

#[test]
fn pause_resume_holds_frames() {
    let mut c = Controls::new();
    c.pause();
    let held = match c.carry(req(1), false) {
        Passage::Held(frame) => frame,
        other => panic!("frame leaked through pause: {other:?}"),
    };
    assert_eq!(c.bytes_through(), 0);
    c.resume();
    assert_eq!(passed(c.carry(held, false)), req(1));
}

#[test]
fn drop_rate_with_seed_is_deterministic() {
    let mut received: Vec<Vec<RequestId>> = Vec::new();
    for _ in 0..2 {
        let mut c = Controls::new();
        c.set_seed(42);
        let rate = 0.5f64;
        let mut got = Vec::new();
        for i in 0..20 {
            match c.carry(req(i), rate > 0.0) {
                Passage::Tossed { frame, random } => {
                    if (random as f64) / (u64::MAX as f64) >= rate {
                        match passed(c.forward(frame)) {
                            Frame::Request { id, .. } => got.push(id),
                            other => panic!("unexpected: {other:?}"),
                        }
                    }
                }
                other => panic!("unexpected: {other:?}"),
            }
        }
        received.push(got);
    }
    assert!(!received[0].is_empty());
    assert!(received[0].len() < 20);
    assert_eq!(received[0], received[1]);
}

#[test]
fn random_numbers_are_those_of_the_seed() {
    let mut c = Controls::new();
    c.set_seed(0);
    let mut x: u64 = 0x9E3779B97F4A7C15;
    x ^= x >> 12;
    x ^= x << 25;
    x ^= x >> 27;
    assert_eq!(c.next_random(), x.wrapping_mul(0x2545F4914F6CDD1D));
    assert_ne!(c.next_random(), c.next_random());
}

#[test]
fn corruption_flips_byte_in_matching_response_but_leaves_hash() {
    let mut c = Controls::new();
    c.set_corruption(7, 2);
    match passed(c.carry(resp_bytes(7, b"hello"), false)) {
        Frame::Response { id: 7, body: Response::Bytes { data, hash, .. } } => {
            assert_eq!(data[0], b'h');
            assert_eq!(data[1], b'e');
            assert_eq!(data[2], b'l' ^ 0xFF);
            assert_eq!(data[3], b'l');
            assert_eq!(data[4], b'o');
            assert!(!hash.verify(&data));
        }
        other => panic!("unexpected: {other:?}"),
    }
    match passed(c.carry(resp_bytes(7, b"hello"), false)) {
        Frame::Response { body: Response::Bytes { data, .. }, .. } => {
            assert_eq!(&data[..], b"hello")
        }
        other => panic!("unexpected: {other:?}"),
    }
}

#[test]
fn corruption_does_not_affect_unmatched() {
    let mut c = Controls::new();
    c.set_corruption(99, 0);
    match passed(c.carry(resp_bytes(7, b"hello"), false)) {
        Frame::Response { id: 7, body: Response::Bytes { data, hash, .. } } => {
            assert_eq!(&data[..], b"hello");
            assert!(hash.verify(&data));
        }
        other => panic!("unexpected: {other:?}"),
    }
}

#[test]
fn corruption_twice_restores_and_beyond_the_end_does_nothing() {
    let mut c = Controls::new();
    c.set_corruption(7, 1);
    c.set_corruption(7, 1);
    c.set_corruption(7, 100);
    assert_eq!(passed(c.carry(resp_bytes(7, b"hello"), false)), resp_bytes(7, b"hello"));
}

#[test]
fn latency_is_handed_on() {
    let mut c = Controls::new();
    c.set_latency(80_000_000);
    match c.carry(req(1), false) {
        Passage::Forwarded { latency_ns, .. } => assert_eq!(latency_ns, 80_000_000),
        other => panic!("unexpected: {other:?}"),
    }
}

#[test]
fn pushes_pass_through() {
    let mut c = Controls::new();
    let f = passed(c.carry(Frame::Push(Push::Resync { epoch: 5 }), false));
    assert_eq!(f, Frame::Push(Push::Resync { epoch: 5 }));
}

#[test]
fn sizes_of_frames() {
    assert_eq!(approx_frame_size(&req(1)), 64);
    assert_eq!(approx_frame_size(&resp(1)), 32);
    assert_eq!(approx_frame_size(&resp_bytes(1, b"hello")), 69);
    assert_eq!(approx_frame_size(&Frame::Push(Push::Resync { epoch: 1 })), 32);
    let write = Frame::Request {
        id: 1,
        body: Request::Write { ino: 1, handle: 1, offset: 0, data: Bytes::from_static(b"abc") },
    };
    assert_eq!(approx_frame_size(&write), 67);
    let page = Frame::Response {
        id: 1,
        body: Response::DirPage {
            entries: vec![DirEntry { ino: 2, name: "x".to_string(), kind: FileKind::Regular }],
            next_offset: None,
        },
    };
    assert_eq!(approx_frame_size(&page), 96);
}

#[test]
fn errors_say_what_they_are() {
    assert_eq!(TransportError::Closed.message(), "transport closed");
    assert_eq!(TransportError::Disconnected.message(), "transport disconnected");
}

// ---- framing ----

fn body_of(buffer: &mut FrameBuffer) -> Vec<u8> {
    match buffer.take_frame() {
        Taken::Body(body) => body,
        other => panic!("no frame: {other:?}"),
    }
}

#[test]
fn a_length_stands_before_the_body() {
    assert_eq!(frame_body(b"abc").unwrap(), vec![0, 0, 0, 3, b'a', b'b', b'c']);
    assert_eq!(frame_body(&vec![7u8; 300]).unwrap()[..4], [0, 0, 1, 44]);
    assert_eq!(frame_length([0, 0, 1, 44]), Some(300));
    assert_eq!(frame_length([4, 0, 0, 0]), Some(MAX_FRAME_BYTES));
    assert_eq!(frame_length([4, 0, 0, 1]), None);
}

#[test]
fn a_frame_that_is_too_long_is_refused() {
    let body = vec![0u8; MAX_FRAME_BYTES as usize + 1];
    assert_eq!(frame_body(&body).unwrap_err(), TransportError::Closed);
    assert_eq!(stdin_message(&body).unwrap_err(), TransportError::Closed);
    let mut buffer = FrameBuffer::new();
    buffer.extend(&[255, 255, 255, 255]);
    assert_eq!(buffer.take_frame(), Taken::End);
}

#[test]
fn multiple_frames_in_a_row() {
    let mut buffer = FrameBuffer::new();
    for i in 0..10u8 {
        buffer.extend(&frame_body(&[i, i]).unwrap());
    }
    for i in 0..10u8 {
        assert_eq!(body_of(&mut buffer), vec![i, i]);
    }
    assert_eq!(buffer.take_frame(), Taken::Partial);
}

#[test]
fn send_emits_stdin_prefixed_frame() {
    // A request with the number 1 for the attributes of inode 42.
    let frame = (0u32, 1u64, 1u32, 42u64);
    let encoded = postcard::to_allocvec(&frame).unwrap();
    let message = stdin_message(&encoded).unwrap();
    assert_eq!(message[0], 0);
    let body = &message[1..];
    assert_eq!(body.len(), 4 + postcard::to_allocvec(&frame).unwrap().len());
    let len = u32::from_be_bytes([body[0], body[1], body[2], body[3]]) as usize;
    assert_eq!(len, body.len() - 4);
    let parsed: (u32, u64, u32, u64) = postcard::from_bytes(&body[4..]).unwrap();
    assert_eq!(parsed, frame);
}

#[test]
fn messages_carry_their_channel() {
    assert_eq!(stdin_message(b"xy").unwrap(), vec![0, 0, 0, 0, 2, b'x', b'y']);
    assert_eq!(eof_message(), vec![4]);
}

#[test]
fn recv_handles_split_messages() {
    let wire = frame_body(&[0, 1, 2, 3, 4, 5, 6, 7]).unwrap();
    let mid = wire.len() / 2;
    let mut buffer = FrameBuffer::new();
    let mut first = vec![1u8];
    first.extend_from_slice(&wire[..mid]);
    let mut second = vec![1u8];
    second.extend_from_slice(&wire[mid..]);
    assert_eq!(buffer.on_message(&first), Channel::Output);
    assert_eq!(buffer.take_frame(), Taken::Partial);
    assert_eq!(buffer.on_message(&second), Channel::Output);
    assert_eq!(body_of(&mut buffer), vec![0, 1, 2, 3, 4, 5, 6, 7]);
}

#[test]
fn recv_ignores_stderr_and_exit() {
    let mut buffer = FrameBuffer::new();
    assert_eq!(buffer.on_message(&[2, b'g', b'a']), Channel::Errors(vec![b'g', b'a']));
    assert_eq!(buffer.on_message(&[3, 0]), Channel::Other);
    assert_eq!(buffer.on_message(&[]), Channel::Other);
    let mut message = vec![1u8];
    message.extend(frame_body(b"real").unwrap());
    buffer.on_message(&message);
    assert_eq!(body_of(&mut buffer), b"real");
}

#[test]
fn closed_stream_returns_none() {
    let mut buffer = FrameBuffer::new();
    buffer.extend(&frame_body(b"last").unwrap());
    buffer.extend(&[0, 0]);
    buffer.close();
    assert_eq!(body_of(&mut buffer), b"last");
    assert_eq!(buffer.take_frame(), Taken::End);
}
