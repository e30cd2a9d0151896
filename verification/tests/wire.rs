//! Control frames and their length prefix.

use atp_experiment::error::Error;
use atp_experiment::wire::{
    frame_len, read_frame, unexpected, write_frame, Frame, MAX_FRAME_LEN, VERSION,
};

fn frames() -> Vec<Frame> {
    vec![
        Frame::Hello { version: VERSION, transfer_tag: 0xdead_beef },
        Frame::HelloAck { udp_port: 12345 },
        Frame::Manifest {
            file_name: "x.bin".into(),
            file_size: 1,
            sha256: "00".into(),
            block_size: 2,
            symbol_size: 3,
            num_blocks: 4,
        },
        Frame::ManifestAck,
        Frame::BlockDecoded { index: 7 },
        Frame::Progress { pkts: 123_456, span: Some(130_000), t_ms: 2_500 },
        Frame::Done { ok: false, error: Some("nope".into()) },
    ]
}

#[test]
fn wire_round_trip() {
    let frames = frames();
    let mut buf: Vec<u8> = Vec::new();
    for f in &frames {
        let body = f.debug_text().into_bytes();
        buf.extend_from_slice(&write_frame(&body).unwrap());
    }
    let mut rest = &buf[..];
    for f in &frames {
        let (body, used) = read_frame(rest).unwrap().expect("a whole frame");
        assert_eq!(format!("{f:?}").as_bytes(), body);
        rest = &rest[used..];
    }
    assert!(rest.is_empty());
}

#[test]
fn diagnostics_show_frames_as_debug_does() {
    for f in frames() {
        assert_eq!(f.debug_text(), format!("{f:?}"));
    }
    let odd = [
        Frame::Progress { pkts: 0, span: None, t_ms: u64::MAX },
        Frame::Done { ok: true, error: None },
        Frame::Done { ok: false, error: Some("a \"b\"\n\u{e9}".into()) },
        Frame::Hello { version: 10, transfer_tag: 100 },
    ];
    for f in odd {
        assert_eq!(f.debug_text(), format!("{f:?}"));
    }
}

#[test]
fn a_frame_is_its_length_and_its_body() {
    assert_eq!(write_frame(b"abc").unwrap(), vec![3, 0, 0, 0, b'a', b'b', b'c']);
    assert_eq!(write_frame(b"").unwrap(), vec![0, 0, 0, 0]);
}

#[test]
fn partial_frames_wait_for_more() {
    let wire = write_frame(b"hello").unwrap();
    for n in 0..wire.len() {
        assert!(read_frame(&wire[..n]).unwrap().is_none());
    }
    let mut more = wire.clone();
    more.push(9);
    let (body, used) = read_frame(&more).unwrap().unwrap();
    assert_eq!(body, b"hello");
    assert_eq!(used, wire.len());
}

#[test]
fn frames_over_the_limit_are_refused() {
    assert_eq!(frame_len(&MAX_FRAME_LEN.to_le_bytes()).unwrap(), 1 << 20);
    let over = frame_len(&(MAX_FRAME_LEN + 1).to_le_bytes()).err().expect("refused");
    assert_eq!(over.message(), "protocol: frame length 1048577 exceeds limit");
    let most = read_frame(&[255, 255, 255, 255]).err().expect("refused");
    assert_eq!(most.message(), "protocol: frame length 4294967295 exceeds limit");
}

#[test]
fn a_body_over_the_readers_limit_can_still_be_written() {
    let body = vec![0u8; (1 << 20) + 1];
    let wire = write_frame(&body).unwrap();
    assert!(read_frame(&wire).is_err());
    let wire = write_frame(&body[1..]).unwrap();
    assert_eq!(read_frame(&wire).unwrap().unwrap().0.len(), 1 << 20);
}

#[test]
fn unexpected_frames_are_named() {
    let e = unexpected("Hello", &Frame::ManifestAck);
    assert_eq!(e.message(), "protocol: expected Hello, got ManifestAck");
    assert!(matches!(e, Error::Protocol(_)));
}

#[test]
fn error_messages_name_their_kind() {
    assert_eq!(Error::Io("a".into()).message(), "io: a");
    assert_eq!(Error::Json("b".into()).message(), "frame encoding: b");
    assert_eq!(Error::protocol("c").message(), "protocol: c");
    assert_eq!(Error::Transfer("d".into()).message(), "transfer failed: d");
}
