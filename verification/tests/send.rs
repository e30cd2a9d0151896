//! The sender's choices, handshake and feedback.

use atp_experiment::blocks::Layout;
use atp_experiment::error::Error;
use atp_experiment::send::{
    check_hello_ack, check_manifest_ack, choose_rendezvous, choose_security, disconnected,
    feedback_of, feedback_of_failure, hello, manifest, reads_on, refuse_empty, transfer_tag, Acks,
    Feedback, LossMeter, LossSample, Rendezvous, Security,
};
use atp_experiment::wire::{Frame, VERSION};

#[test]
fn empty_files_are_refused() {
    assert!(refuse_empty(1).is_ok());
    assert_eq!(
        refuse_empty(0).err().expect("refused").message(),
        "transfer failed: refusing to send an empty file"
    );
}

#[test]
fn exactly_one_way_to_meet() {
    assert_eq!(choose_rendezvous(true, false).unwrap(), Rendezvous::Push);
    assert_eq!(choose_rendezvous(false, true).unwrap(), Rendezvous::Pull);
    for both in [true, false] {
        assert_eq!(
            choose_rendezvous(both, both).err().expect("refused").message(),
            "transfer failed: pass exactly one of <dest> (push) or --listen (pull)"
        );
    }
}

#[test]
fn sealed_mode_needs_a_pin() {
    assert_eq!(choose_security(true, None).unwrap(), Security::Plaintext);
    let err = choose_security(false, None).err().expect("must refuse without --pin");
    assert!(err.message().contains("--pin"), "unexpected error: {err:?}");
    assert_eq!(
        err.message(),
        "transfer failed: --pin <sha256> required (copy it from `atp-experiment recv` output), \
         or --nocrypto"
    );
    let pin = "11".repeat(32);
    assert_eq!(
        choose_security(false, Some(&pin)).unwrap(),
        Security::Pinned([0x11; 32])
    );
    assert!(choose_security(false, Some("beef")).is_err());
    assert!(choose_security(false, Some("xy")).is_err());
}

#[test]
fn tags_mix_clock_and_process() {
    assert_eq!(transfer_tag(0, 1), 1 << 32);
    assert_eq!(transfer_tag(0xff, 0), 0xff);
    let expected = 0x1234_5678_9abc_def0u64 ^ 77u64.rotate_left(32);
    assert_eq!(transfer_tag(0x1234_5678_9abc_def0, 77), expected);
    assert_ne!(transfer_tag(5, 1), transfer_tag(5, 2));
}

#[test]
fn handshake_frames() {
    assert!(matches!(
        hello(9),
        Frame::Hello { version: VERSION, transfer_tag: 9 }
    ));
    assert_eq!(check_hello_ack(&Frame::HelloAck { udp_port: 40000 }).unwrap(), 40000);
    let e = check_hello_ack(&Frame::BlockDecoded { index: 3 }).err().expect("refused");
    assert_eq!(
        e.message(),
        "protocol: expected HelloAck, got BlockDecoded { index: 3 }"
    );
    assert!(check_manifest_ack(&Frame::ManifestAck).is_ok());
    let e = check_manifest_ack(&hello(1)).err().expect("refused");
    assert_eq!(
        e.message(),
        "protocol: expected ManifestAck, got Hello { version: 2, transfer_tag: 1 }"
    );
}

#[test]
fn the_manifest_describes_the_layout() {
    let l = Layout::new(2_500_000, 1 << 20, 1200);
    match manifest("f".into(), "ab".into(), &l) {
        Frame::Manifest { file_name, file_size, sha256, block_size, symbol_size, num_blocks } => {
            assert_eq!(file_name, "f");
            assert_eq!(sha256, "ab");
            assert_eq!(file_size, 2_500_000);
            assert_eq!(block_size, 1 << 20);
            assert_eq!(symbol_size, 1200);
            assert_eq!(num_blocks, 3);
        }
        f => panic!("not a manifest: {f:?}"),
    }
}

#[test]
fn feedback_from_frames() {
    assert!(matches!(
        feedback_of(Frame::BlockDecoded { index: 4 }),
        Feedback::Decoded(4)
    ));
    assert!(matches!(
        feedback_of(Frame::Progress { pkts: 1, span: Some(2), t_ms: 3 }),
        Feedback::Progress { pkts: 1, span: Some(2), t_ms: 3 }
    ));
    assert!(matches!(
        feedback_of(Frame::Done { ok: true, error: None }),
        Feedback::Done { ok: true, error: None }
    ));
    match feedback_of(Frame::ManifestAck) {
        Feedback::Closed(why) => assert_eq!(why, "unexpected frame ManifestAck"),
        other => panic!("not closed: {other:?}"),
    }
    match feedback_of_failure(&Error::Io("gone".into())) {
        Feedback::Closed(why) => assert_eq!(why, "io: gone"),
        other => panic!("not closed: {other:?}"),
    }
    assert_eq!(disconnected().message(), "protocol: control connection lost");
}

#[test]
fn reading_stops_after_the_last_word() {
    assert!(reads_on(&Feedback::Decoded(1)));
    assert!(reads_on(&Feedback::Progress { pkts: 0, span: None, t_ms: 0 }));
    assert!(!reads_on(&Feedback::Done { ok: true, error: None }));
    assert!(!reads_on(&Feedback::Closed("x".into())));
}

#[test]
fn acknowledgements_are_counted_once() {
    let mut acks = Acks::new(4);
    assert_eq!(acks.count(), 0);
    assert_eq!(acks.pending(), vec![0, 1, 2, 3]);
    acks.mark(2);
    acks.mark(2);
    acks.mark(4);
    acks.mark(u32::MAX);
    assert_eq!(acks.count(), 1);
    assert!(acks.is_acked(2));
    assert!(!acks.is_acked(3));
    assert_eq!(acks.pending(), vec![0, 1, 3]);
    acks.mark(0);
    acks.mark(1);
    acks.mark(3);
    assert_eq!(acks.count(), 4);
    assert!(acks.pending().is_empty());
}

#[test]
fn loss_is_measured_over_intervals() {
    let mut m = LossMeter::new();
    assert_eq!(m.update(90, 100), LossSample::First { received: 90, sent: 100 });
    assert_eq!(m.update(100, 149), LossSample::Merged);
    assert_eq!(m.update(130, 150), LossSample::Interval { received: 40, sent: 50 });
    assert_eq!(m.update(130, 100), LossSample::Merged);
    assert_eq!(m.update(100, 250), LossSample::Interval { received: 0, sent: 100 });
}
