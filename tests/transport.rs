use std::io::Write;

use wesnoth_wire::frame::{frame, frame_length};
use wesnoth_wire::handshake::{client_hello_bytes, server_reply_bytes};
use wesnoth_wire::inspect::{Inspector, Observation, Side};
use wesnoth_wire::{client_handshake, server_handshake, Error, ReadStep, Reader, Writer};

fn gzip(data: &[u8], level: flate2::Compression) -> Vec<u8> {
    let mut e = flate2::write::GzEncoder::new(Vec::new(), level);
    e.write_all(data).unwrap();
    e.finish().unwrap()
}

fn read_all(reader: &mut Reader) -> Vec<Vec<u8>> {
    let mut out = Vec::new();
    while let ReadStep::Frame(p) = reader.read().unwrap() {
        out.push(p);
    }
    out
}

#[test]
fn frame_round_trip() {
    let payload = b"[version]\n[/version]\n".to_vec();
    let wire = Writer::new().write(&payload).unwrap();
    let mut reader = Reader::with_defaults();
    reader.feed(&wire).unwrap();
    assert_eq!(reader.read().unwrap(), ReadStep::Frame(payload));
    assert_eq!(reader.read().unwrap(), ReadStep::NeedInput);
    assert!(reader.buffered().is_empty());
}

#[test]
fn empty_payload_round_trip() {
    let wire = Writer::new().write(b"").unwrap();
    assert!(wire.len() > 4);
    let mut reader = Reader::with_defaults();
    reader.feed(&wire).unwrap();
    assert_eq!(reader.read().unwrap(), ReadStep::Frame(Vec::new()));
}

#[test]
fn written_frame_is_compressed() {
    let payload = vec![b'a'; 1000];
    let wire = Writer::new().write(&payload).unwrap();
    assert!(wire.len() < payload.len());
    assert_eq!(&wire[4..6], &[0x1f, 0x8b]);
    let n = u32::from_be_bytes([wire[0], wire[1], wire[2], wire[3]]) as usize;
    assert_eq!(n, wire.len() - 4);
}

#[test]
fn chunking_does_not_matter() {
    let payloads: Vec<Vec<u8>> = vec![b"one".to_vec(), Vec::new(), vec![7u8; 300], b"[a]\n[/a]\n".to_vec()];
    let writer = Writer::new();
    let mut wire = Vec::new();
    for p in &payloads {
        wire.extend(writer.write(p).unwrap());
    }
    let mut whole = Reader::with_defaults();
    whole.feed(&wire).unwrap();
    assert_eq!(read_all(&mut whole), payloads);

    let mut bytewise = Reader::with_defaults();
    let mut got = Vec::new();
    for b in &wire {
        bytewise.feed(std::slice::from_ref(b)).unwrap();
        got.extend(read_all(&mut bytewise));
    }
    assert_eq!(got, payloads);
}

#[test]
fn prefix_of_a_1234_byte_frame() {
    let payload: Vec<u8> = (0..1211u32).map(|i| (i * 7 % 251) as u8).collect();
    let compressed = gzip(&payload, flate2::Compression::none());
    assert_eq!(compressed.len(), 1234);
    let wire = frame(&compressed).unwrap();
    assert_eq!(&wire[..4], &[0x00, 0x00, 0x04, 0xD2]);
    assert_eq!(wire.len(), 4 + 1234);
    assert_eq!(&wire[4..], &compressed[..]);
    let mut reader = Reader::with_defaults();
    reader.feed(&wire).unwrap();
    assert_eq!(reader.read().unwrap(), ReadStep::Frame(payload));
}

#[test]
fn multi_member_payload() {
    let mut c = gzip(b"ab", flate2::Compression::best());
    c.extend(gzip(b"cd", flate2::Compression::best()));
    let mut reader = Reader::with_defaults();
    reader.feed(&frame(&c).unwrap()).unwrap();
    assert_eq!(reader.read().unwrap(), ReadStep::Frame(b"abcd".to_vec()));
}

#[test]
fn frame_length_cases() {
    assert_eq!(frame_length(&[0, 0, 0], 10), Ok(None));
    assert_eq!(frame_length(&[0, 0, 0, 2, 9], 10), Ok(None));
    assert_eq!(frame_length(&[0, 0, 0, 2, 9, 9, 1], 10), Ok(Some(2)));
    assert_eq!(frame_length(&[0, 0, 0, 11], 10), Err(Error::FrameTooLarge));
    assert_eq!(frame_length(&[1, 0, 0, 0], 16777216), Ok(None));
    assert_eq!(frame_length(&[1, 0, 0, 1], 16777216), Err(Error::FrameTooLarge));
}

#[test]
fn frame_too_large() {
    let mut reader = Reader::new(16, 64);
    reader.feed(&[0, 0, 0, 17]).unwrap();
    assert_eq!(reader.read(), Err(Error::FrameTooLarge));
}

#[test]
fn buffer_overflow() {
    let mut reader = Reader::new(100, 8);
    reader.feed(&[0, 0, 0, 50, 1, 2]).unwrap();
    assert_eq!(reader.room(), 2);
    assert_eq!(reader.feed(&[1, 2, 3]), Err(Error::BufferOverflow));
    assert_eq!(reader.buffered(), &[0, 0, 0, 50, 1, 2]);
}

#[test]
fn end_of_stream() {
    let mut reader = Reader::with_defaults();
    assert_eq!(reader.feed(&[]), Err(Error::EndOfStream));
}

#[test]
fn undecodable_frame() {
    let mut reader = Reader::with_defaults();
    reader.feed(&[0, 0, 0, 3, 1, 2, 3, 9]).unwrap();
    assert_eq!(reader.read(), Err(Error::Decode));
    assert_eq!(reader.buffered(), &[9]);
}

#[test]
fn handshake_constants() {
    assert_eq!(client_hello_bytes(), vec![0, 0, 0, 0]);
    assert_eq!(server_reply_bytes(), vec![0, 0, 0, 0x2A]);
}

#[test]
fn server_handshake_keeps_following_bytes() {
    let received = [0, 0, 0, 0, 5, 6, 7, 8];
    let (mut reader, _writer) = server_handshake(&received, 1024, 4096).unwrap().unwrap();
    assert_eq!(reader.buffered(), &[5, 6, 7, 8]);
    assert_eq!(reader.read(), Err(Error::FrameTooLarge));
}

#[test]
fn server_handshake_waits_and_rejects() {
    assert!(server_handshake(&[0, 0], 1024, 4096).unwrap().is_none());
    assert_eq!(server_handshake(&[0, 0, 0, 1], 1024, 4096).err(), Some(Error::BadHandshake));
    assert_eq!(server_handshake(&[9, 0, 0, 0, 0], 1024, 4096).err(), Some(Error::BadHandshake));
    assert_eq!(server_handshake(&[0, 0, 0, 0, 1, 2], 1024, 1).err(), Some(Error::BufferOverflow));
}

#[test]
fn client_handshake_cases() {
    let (reader, _w) = client_handshake(&[0, 0, 0, 42], 1024, 4096).unwrap().unwrap();
    assert!(reader.buffered().is_empty());
    assert_eq!(client_handshake(&[0, 0, 0, 0], 1024, 4096).err(), Some(Error::BadHandshake));
}

#[test]
fn side_names() {
    assert_eq!(Side::Server.name(), "server");
    assert_eq!(Side::Client.name(), "client");
}

#[test]
fn inspector_reports_handshake_and_frames() {
    let writer = Writer::new();
    let mut stream = vec![0, 0, 0, 42];
    stream.extend(writer.write(b"[a]\n[/a]\n").unwrap());
    stream.extend(frame(&[1, 2, 3]).unwrap());
    let mut insp = Inspector::new(Side::Server);
    let mut seen = Vec::new();
    for chunk in stream.chunks(5) {
        seen.extend(insp.process_msg(chunk));
    }
    assert_eq!(seen.len(), 3);
    assert_eq!(seen[0], Observation::Handshake(vec![0, 0, 0, 42], true));
    match &seen[1] {
        Observation::Frame(_, decoded) => assert_eq!(decoded.as_deref(), Some(&b"[a]\n[/a]\n"[..])),
        _ => panic!("expected a frame"),
    }
    assert_eq!(seen[2], Observation::Frame(vec![1, 2, 3], None));
}

#[test]
fn inspector_flags_odd_handshake() {
    let mut insp = Inspector::new(Side::Client);
    let seen = insp.process_msg(&[0, 0, 0, 1]);
    assert_eq!(seen, vec![Observation::Handshake(vec![0, 0, 0, 1], false)]);
}
