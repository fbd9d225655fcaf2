use framed_channel::channel::{frame_request, frame_response, EndReason, Inbound, Pull};
use framed_channel::frame::{write_frame, FrameReader, MAX_FRAME_LEN};
use framed_channel::handshake::{greet, ServerError};
use framed_channel::message::{
    decode_request, decode_response, encode_request, encode_response, request_from_name,
    response_from_name,
};
use framed_channel::{CodecError, Request, Response};

fn msgpack_str(s: &str) -> Vec<u8> {
    let mut v = vec![0xa0 | s.len() as u8];
    v.extend_from_slice(s.as_bytes());
    v
}

fn frame(payload: &[u8]) -> Vec<u8> {
    let mut v = (payload.len() as u32).to_be_bytes().to_vec();
    v.extend_from_slice(payload);
    v
}

#[test]
fn request_encodes_as_its_name() {
    let b = encode_request(&Request::Greeting).unwrap();
    assert_eq!(b, msgpack_str("Greeting"));
    assert_eq!(b[0], 0xa8);
}

#[test]
fn response_encodes_as_its_name() {
    let b = encode_response(&Response::Welcome).unwrap();
    assert_eq!(b, msgpack_str("Wellcome"));
}

#[test]
fn response_round_trip() {
    let b = encode_response(&Response::Welcome).unwrap();
    assert_eq!(decode_response(&b).unwrap(), Response::Welcome);
}

#[test]
fn request_round_trip() {
    let b = encode_request(&Request::Greeting).unwrap();
    assert_eq!(decode_request(&b).unwrap(), Request::Greeting);
}

#[test]
fn malformed_payload_is_decode_error() {
    assert!(matches!(decode_request(&[0xc1]), Err(CodecError::MsgPackDecode(_))));
    assert!(matches!(decode_request(&[]), Err(CodecError::MsgPackDecode(_))));
    assert!(matches!(decode_request(&[0xa8, b'G']), Err(CodecError::MsgPackDecode(_))));
}

#[test]
fn unknown_name_is_unknown_variant() {
    match decode_request(&msgpack_str("Farewell")) {
        Err(CodecError::UnknownVariant(name)) => assert_eq!(name, "Farewell"),
        other => panic!("unexpected {:?}", other),
    }
    assert!(matches!(
        decode_response(&msgpack_str("Greeting")),
        Err(CodecError::UnknownVariant(_))
    ));
}

#[test]
fn names_map_to_variants() {
    assert_eq!(request_from_name("Greeting"), Some(Request::Greeting));
    assert_eq!(request_from_name("greeting"), None);
    assert_eq!(request_from_name(""), None);
    assert_eq!(response_from_name("Wellcome"), Some(Response::Welcome));
    assert_eq!(response_from_name("Welcome"), None);
    assert_eq!(Request::Greeting.name(), "Greeting");
    assert_eq!(Response::Welcome.name(), "Wellcome");
}

#[test]
fn write_frame_prefixes_big_endian_length() {
    assert_eq!(write_frame(b"abc").unwrap(), vec![0, 0, 0, 3, b'a', b'b', b'c']);
    assert_eq!(write_frame(b"").unwrap(), vec![0, 0, 0, 0]);
    let big = vec![7u8; 300];
    let f = write_frame(&big).unwrap();
    assert_eq!(&f[..4], &[0, 0, 1, 44]);
    assert_eq!(&f[4..], &big[..]);
}

#[test]
fn write_frame_largest_and_too_large() {
    let max = vec![0u8; MAX_FRAME_LEN];
    assert_eq!(write_frame(&max).unwrap().len(), MAX_FRAME_LEN + 4);
    let over = vec![0u8; MAX_FRAME_LEN + 1];
    assert!(matches!(write_frame(&over), Err(CodecError::Length(_))));
}

#[test]
fn frame_response_is_one_welcome_frame() {
    assert_eq!(frame_response(&Response::Welcome).unwrap(), frame(&msgpack_str("Wellcome")));
    assert_eq!(frame_request(&Request::Greeting).unwrap(), frame(&msgpack_str("Greeting")));
}

#[test]
fn frames_survive_any_chunking() {
    let payloads: Vec<Vec<u8>> = vec![b"one".to_vec(), Vec::new(), vec![9u8; 70], b"xy".to_vec()];
    let mut wire = Vec::new();
    for p in &payloads {
        wire.extend_from_slice(&write_frame(p).unwrap());
    }
    for cut1 in 0..=wire.len() {
        for cut2 in cut1..=wire.len() {
            let mut reader = FrameReader::new();
            let mut out = Vec::new();
            for chunk in [&wire[..cut1], &wire[cut1..cut2], &wire[cut2..]] {
                reader.push(chunk);
                while let Some(f) = reader.read_frame(false).unwrap() {
                    out.push(f);
                }
            }
            assert_eq!(out, payloads);
            assert!(reader.read_frame(true).unwrap().is_none());
        }
    }
}

#[test]
fn frames_byte_by_byte() {
    let mut wire = frame(&msgpack_str("Greeting"));
    wire.extend_from_slice(&frame(&msgpack_str("Greeting")));
    let mut inbound = Inbound::new();
    let mut got = 0;
    for b in &wire {
        inbound.push(&[*b]);
        loop {
            match inbound.pull() {
                Pull::Item(r) => {
                    assert_eq!(r, Request::Greeting);
                    got += 1;
                }
                Pull::Pending => break,
                other => panic!("unexpected {:?}", other),
            }
        }
    }
    assert_eq!(got, 2);
}

#[test]
fn undecodable_frame_is_skipped() {
    let mut inbound = Inbound::new();
    inbound.push(&frame(&[0xc1, 0x00, 0x13]));
    inbound.push(&frame(&msgpack_str("Farewell")));
    inbound.push(&frame(&msgpack_str("Greeting")));
    assert!(matches!(inbound.pull(), Pull::Item(Request::Greeting)));
    assert!(matches!(inbound.pull(), Pull::Pending));
    assert_eq!(inbound.ended(), None);
    inbound.push(&frame(b"junk"));
    inbound.push(&frame(&msgpack_str("Greeting")));
    assert!(matches!(inbound.pull(), Pull::Item(Request::Greeting)));
}

#[test]
fn truncated_stream_is_a_framing_fault() {
    let mut inbound = Inbound::new();
    inbound.push(&[0, 0, 0, 9, 0xa8, b'G']);
    assert!(matches!(inbound.pull(), Pull::Pending));
    inbound.close();
    assert!(matches!(inbound.pull(), Pull::Fault(CodecError::Length(_))));
    assert_eq!(inbound.ended(), Some(EndReason::FramingFault));
    assert!(matches!(inbound.pull(), Pull::End));
    inbound.push(&frame(&msgpack_str("Greeting")));
    assert!(matches!(inbound.pull(), Pull::End));
}

#[test]
fn clean_close_is_a_plain_end() {
    let mut inbound = Inbound::new();
    inbound.push(&frame(&msgpack_str("Greeting")));
    inbound.close();
    assert!(matches!(inbound.pull(), Pull::Item(Request::Greeting)));
    assert!(matches!(inbound.pull(), Pull::End));
    assert_eq!(inbound.ended(), Some(EndReason::PeerClosed));
}

#[test]
fn oversized_prefix_is_a_framing_fault() {
    let mut inbound = Inbound::new();
    inbound.push(&[0, 0x80, 0, 1]);
    assert!(matches!(inbound.pull(), Pull::Fault(CodecError::Length(_))));
    assert_eq!(inbound.ended(), Some(EndReason::FramingFault));
}

#[test]
fn handshake_greeting_gets_one_welcome() {
    let mut inbound = Inbound::new();
    inbound.push(&frame_request(&Request::Greeting).unwrap());
    let first = match inbound.pull() {
        Pull::Item(r) => Some(r),
        _ => None,
    };
    let reply = greet(first).unwrap();
    assert_eq!(reply, Response::Welcome);
    let sent = frame_response(&reply).unwrap();
    let mut reader = FrameReader::new();
    reader.push(&sent);
    let payload = reader.read_frame(true).unwrap().unwrap();
    assert_eq!(decode_response(&payload).unwrap(), Response::Welcome);
    assert!(reader.read_frame(true).unwrap().is_none());
    assert_eq!(inbound.ended(), None);
}

#[test]
fn handshake_closed_before_anything() {
    let mut inbound = Inbound::new();
    inbound.close();
    assert!(matches!(inbound.pull(), Pull::End));
    assert_eq!(greet(None), Err(ServerError::ConnectionClosed));
}

#[test]
fn prefix_only_then_close_is_a_framing_fault() {
    let mut inbound = Inbound::new();
    inbound.push(&[0, 0, 0, 9]);
    assert!(matches!(inbound.pull(), Pull::Pending));
    inbound.close();
    assert!(matches!(inbound.pull(), Pull::Fault(CodecError::Length(_))));
    assert_eq!(inbound.ended(), Some(EndReason::FramingFault));
    assert!(matches!(inbound.pull(), Pull::End));
}

#[test]
fn frames_then_truncated_frame_then_close() {
    let mut inbound = Inbound::new();
    inbound.push(&frame_request(&Request::Greeting).unwrap());
    inbound.push(&frame(b"xx"));
    inbound.push(&frame_request(&Request::Greeting).unwrap());
    inbound.push(&[0, 0, 0, 5, 0xa8]);
    inbound.close();
    assert!(matches!(inbound.pull(), Pull::Item(Request::Greeting)));
    assert!(matches!(inbound.pull(), Pull::Item(Request::Greeting)));
    assert!(matches!(inbound.pull(), Pull::Fault(CodecError::Length(_))));
    assert!(matches!(inbound.pull(), Pull::End));
}
