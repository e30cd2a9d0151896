//! Sender and receiver against each other, datagrams handed over in memory:
//! files arrive whole, sealed and in plaintext, with and without loss.

use std::collections::VecDeque;

use atp_experiment::blocks::Layout;
use atp_experiment::datagram::{RxPlane, TxPlane};
use atp_experiment::digest::sha256_hex;
use atp_experiment::error::Error;
use atp_experiment::recv::{
    ack, check_hello, check_manifest, conclude, done, hello_ack, is_countable, verdict, Delivery,
    Greeting, Receiver, RecvArgs,
};
use atp_experiment::sealed::{SymbolOpener, SymbolSealer};
use atp_experiment::send::{
    check_hello_ack, check_manifest_ack, feedback_of, hello, manifest, Feedback,
};
use atp_experiment::sender::{outcome, Action, Event, Heard, Sender};
use atp_experiment::udp::cuts;
use atp_experiment::wire::Frame;

/// Deterministic pseudo-random bytes (xorshift64*).
fn test_data(len: usize, seed: u64) -> Vec<u8> {
    let mut out = vec![0u8; len];
    let mut x = seed | 1;
    for chunk in out.chunks_mut(8) {
        x ^= x << 13;
        x ^= x >> 7;
        x ^= x << 17;
        let bytes = x.wrapping_mul(0x2545f4914f6cdd1d).to_le_bytes();
        chunk.copy_from_slice(&bytes[..chunk.len()]);
    }
    out
}

fn planes(sealed: bool, seed: u8) -> (TxPlane, RxPlane) {
    if sealed {
        let key = [seed; 32];
        (
            TxPlane::Sealed(SymbolSealer::new(&key)),
            RxPlane::Sealed(Box::new(SymbolOpener::new(&key))),
        )
    } else {
        (TxPlane::Plain, RxPlane::Plain)
    }
}

/// What a run came to.
struct Run {
    got: Vec<u8>,
    rounds: u32,
    packets: u64,
    acked: Vec<u32>,
}

/// Send a file through, and compare what arrives.
fn transfer(len: usize, block_size: u32, seed: u64, sealed: bool, test_drop: f64) -> Run {
    let data = test_data(len, seed);
    let sha = sha256_hex(&data);
    let layout = Layout::new(len as u64, block_size, 1200);
    assert!(layout.is_codable());
    let tag = seed.wrapping_mul(0x9e37_79b9_7f4a_7c15);
    let (tx, rx) = planes(sealed, seed as u8);
    let drop_below = (test_drop * (1u64 << 53) as f64).ceil() as u64;
    let mut sender = Sender::new(data.clone(), layout, tx, tag, drop_below);
    let mut receiver = Receiver::new(layout, rx, tag);
    let mut got = vec![0u8; len];
    let mut feedback: VecDeque<Feedback> = VecDeque::new();
    let mut acked: Vec<u32> = Vec::new();
    let mut finished = false;
    let mut event = Event::Drained;
    let result = loop {
        match sender.next(event) {
            Action::Drain => {
                let mut ended = None;
                while let Some(fb) = feedback.pop_front() {
                    match sender.on_feedback(fb) {
                        Heard::Finished { ok, error } => ended = Some(outcome(ok, error)),
                        Heard::Lost(e) => panic!("lost: {}", e.message()),
                        _ => {}
                    }
                }
                if let Some(r) = ended {
                    break r;
                }
                event = Event::Drained;
            }
            Action::AwaitDone => event = Event::Reply(feedback.pop_front()),
            Action::Size { source_symbols, round, .. } => {
                let frac = if round == 0 { 0.05 } else { 0.25 };
                let n = (source_symbols as f64 * frac).ceil() as u32;
                assert!(sender.has_room(n));
                event = Event::Sized(n);
            }
            Action::Flush => {
                let seg = sender.segment_len();
                let batch = sender.batch().to_vec();
                assert!(batch.len() <= sender.batch_limit() * seg);
                for (from, to) in cuts(batch.len(), seg, sender.batch_limit()) {
                    let mut dgram = batch[from..to].to_vec();
                    match receiver.on_datagram(&mut dgram) {
                        Delivery::Decoded { block, data } => {
                            let r = layout.range(block);
                            got[r.start as usize..r.end as usize].copy_from_slice(&data);
                            assert!(receiver.is_pending(block));
                            receiver.written(block);
                            assert!(!receiver.is_pending(block));
                        }
                        Delivery::Fed | Delivery::Late => {}
                        _ => panic!("own datagram not taken"),
                    }
                }
                for b in receiver.take_acks() {
                    acked.push(b);
                    feedback.push_back(feedback_of(ack(b)));
                }
                if receiver.is_complete() && !finished {
                    finished = true;
                    let error = verdict(&sha, &sha256_hex(&got));
                    feedback.push_back(feedback_of(done(&error)));
                }
                event = Event::Flushed { gone: false };
            }
            Action::RoundDone | Action::Sleep => event = Event::Slept,
            Action::Finish { ok, error } => break outcome(ok, error),
            Action::Fail(e) => panic!("failed: {}", e.message()),
        }
    };
    result.expect("send succeeds");
    assert_eq!(got.len(), data.len());
    assert_eq!(got, data, "received bytes match");
    assert_eq!(receiver.decoded(), layout.num_blocks);
    if let Some(Frame::Progress { pkts, span: Some(span), .. }) = receiver.progress(0) {
        assert!(pkts <= span, "no number is counted twice");
        assert!(span <= sender.packets_sent(), "each packet takes one number");
    } else {
        assert!(!sealed, "a sealed receiver knows the span");
    }
    Run { got, rounds: sender.round(), packets: sender.packets_sent(), acked }
}

#[test]
fn several_sealed_blocks_arrive() {
    // Three full blocks and a short tail.
    let run = transfer(3 * 65536 + 32768, 65536, 0xa1b2, true, 0.0);
    let mut acked = run.acked.clone();
    acked.sort_unstable();
    assert_eq!(acked, vec![0, 1, 2, 3], "each block is acknowledged once");
}

#[test]
fn sealed_tiny_file() {
    let run = transfer(100, 1 << 20, 0xc3d4, true, 0.0);
    assert_eq!(run.got.len(), 100);
    assert_eq!(run.packets, 1 + 2, "one source packet and the least repair");
}

#[test]
fn sealed_odd_sizes() {
    transfer(777_777, 256 * 1024, 0xe5f6, true, 0.0);
}

#[test]
fn several_plaintext_blocks_arrive() {
    transfer(2 * 65536 + 123, 65536, 0x7788, false, 0.0);
}

#[test]
fn ten_percent_loss_is_repaired() {
    // The claim: fountain-coded repair absorbs heavy datagram loss with no
    // retransmission.
    let run = transfer(4 * 65536, 65536, 0x9dad, true, 0.10);
    assert!(run.rounds >= 1, "five percent of repair cannot make up for ten of loss");
}

#[test]
fn thirty_percent_loss_is_repaired() {
    let run = transfer(65536 + 7, 65536, 0xbeef, true, 0.30);
    assert!(run.rounds >= 1);
}

#[test]
fn everything_lost_is_never_done() {
    let layout = Layout::new(100, 64, 16);
    let mut sender = Sender::new(test_data(100, 3), layout, TxPlane::Plain, 3, 1 << 53);
    let mut event = Event::Drained;
    for _ in 0..40 {
        event = match sender.next(event) {
            Action::Drain => Event::Drained,
            Action::Size { .. } => Event::Sized(0),
            Action::RoundDone | Action::Sleep => Event::Slept,
            _ => panic!("nothing can be sent or finished"),
        };
    }
    assert!(sender.batch().is_empty());
    assert_eq!(sender.bytes_sent(), 0);
    assert!(sender.packets_sent() > 0);
    assert_eq!(sender.acked_count(), 0);
}

#[test]
fn repair_is_never_repeated() {
    let layout = Layout::new(64, 64, 16);
    let mut sender = Sender::new(test_data(64, 9), layout, TxPlane::Plain, 1, 0);
    let mut seen: Vec<Vec<u8>> = Vec::new();
    let mut event = Event::Drained;
    for _ in 0..40 {
        event = match sender.next(event) {
            Action::Drain => Event::Drained,
            Action::Size { block, source_symbols, .. } => {
                assert_eq!(block, 0);
                assert_eq!(source_symbols, 4);
                Event::Sized(5)
            }
            Action::Flush => {
                let batch = sender.batch().to_vec();
                for (from, to) in cuts(batch.len(), sender.segment_len(), 64) {
                    // Magic, tag and block index, then the payload id.
                    seen.push(batch[from + 16..to].to_vec());
                }
                Event::Flushed { gone: false }
            }
            Action::RoundDone | Action::Sleep => Event::Slept,
            _ => panic!("nothing finishes here"),
        };
    }
    // Four source packets and five of repair, then at least eight a round.
    assert!(seen.len() > 4 + 5 + 8);
    for (i, packet) in seen.iter().enumerate() {
        assert_eq!(packet.len(), 4 + 16);
        assert_eq!(packet[..4], (i as u32).to_be_bytes(), "ids go up by one");
    }
}

#[test]
fn source_packets_carry_the_file() {
    let data = test_data(64, 9);
    let layout = Layout::new(64, 64, 16);
    let mut sender = Sender::new(data.clone(), layout, TxPlane::Plain, 1, 0);
    assert!(matches!(sender.next(Event::Drained), Action::Size { round: 0, .. }));
    assert!(matches!(sender.next(Event::Sized(0)), Action::Flush));
    let seg = sender.segment_len();
    assert_eq!(seg, 16 + 4 + 16);
    assert_eq!(sender.batch().len(), 6 * seg, "four source packets and two of repair");
    for i in 0..4 {
        let symbol = &sender.batch()[i * seg + 20..(i + 1) * seg];
        assert_eq!(symbol, &data[i * 16..(i + 1) * 16]);
    }
}

#[test]
fn batches_are_flushed_when_full() {
    // 80 symbols of 1024 bytes: 62 datagrams of 1044 bytes fill a batch.
    let layout = Layout::new(80 * 1024, 80 * 1024, 1024);
    let mut sender = Sender::new(test_data(80 * 1024, 4), layout, TxPlane::Plain, 1, 0);
    assert_eq!(sender.batch_limit(), 62);
    let _ = sender.next(Event::Drained);
    assert!(matches!(sender.next(Event::Sized(0)), Action::Flush));
    assert_eq!(sender.batch().len(), 62 * 1044);
    assert_eq!(sender.packets_sent(), 62);
    assert!(matches!(sender.next(Event::Flushed { gone: false }), Action::Flush));
    assert_eq!(sender.batch().len(), 20 * 1044);
    assert_eq!(sender.bytes_sent(), 82 * 1044);
    assert!(matches!(sender.next(Event::Flushed { gone: false }), Action::Drain));
    assert!(matches!(sender.next(Event::Drained), Action::RoundDone));
    assert_eq!(sender.round(), 1);
}

#[test]
fn a_receiver_that_is_gone_is_waited_for() {
    let layout = Layout::new(200, 64, 16);
    let mut sender = Sender::new(test_data(200, 5), layout, TxPlane::Plain, 1, 0);
    let _ = sender.next(Event::Drained);
    assert!(matches!(sender.next(Event::Sized(0)), Action::Flush));
    assert!(matches!(sender.next(Event::Flushed { gone: true }), Action::RoundDone));
    assert!(matches!(sender.next(Event::Slept), Action::Drain));
    assert!(matches!(sender.next(Event::Drained), Action::Drain));
    assert!(matches!(sender.next(Event::Drained), Action::AwaitDone));
    // Other feedback is passed over.
    assert!(matches!(sender.next(Event::Reply(Some(Feedback::Decoded(0)))), Action::Drain));
    assert_eq!(sender.acked_count(), 0);
    assert!(matches!(sender.next(Event::Drained), Action::AwaitDone));
    match sender.next(Event::Reply(None)) {
        Action::Fail(e) => assert_eq!(e.message(), "protocol: receiver never sent Done"),
        _ => panic!("must give up"),
    }
}

#[test]
fn settling_goes_on_while_acknowledgements_come() {
    let layout = Layout::new(200, 64, 16);
    let mut sender = Sender::new(test_data(200, 5), layout, TxPlane::Plain, 1, 0);
    let mut event = Event::Drained;
    loop {
        event = match sender.next(event) {
            Action::Drain => Event::Drained,
            Action::Size { .. } => Event::Sized(2),
            Action::Flush => Event::Flushed { gone: false },
            Action::RoundDone => break,
            _ => panic!("round zero only sends"),
        };
    }
    assert!(matches!(sender.next(Event::Slept), Action::Drain));
    assert!(matches!(sender.on_feedback(Feedback::Decoded(1)), Heard::Nothing));
    assert!(matches!(sender.next(Event::Drained), Action::Sleep));
    assert!(matches!(sender.next(Event::Slept), Action::Drain));
    assert!(matches!(sender.next(Event::Drained), Action::Drain), "quiet: back to the top");
    // The next round starts with block 0 and passes over block 1.
    assert!(matches!(sender.next(Event::Drained), Action::Size { block: 0, round: 1, .. }));
    assert!(matches!(sender.next(Event::Sized(0)), Action::Flush));
    assert!(matches!(sender.next(Event::Flushed { gone: false }), Action::Drain));
    assert!(matches!(sender.next(Event::Drained), Action::Size { block: 2, .. }));
}

#[test]
fn feedback_that_is_heard() {
    let layout = Layout::new(100, 64, 16);
    let mut sender = Sender::new(test_data(100, 5), layout, TxPlane::Plain, 1, 0);
    let _ = sender.next(Event::Drained);
    let _ = sender.next(Event::Sized(0));
    let sent = sender.packets_sent();
    assert!(matches!(
        sender.on_feedback(Feedback::Progress { pkts: 0, span: None, t_ms: 100 }),
        Heard::Nothing
    ));
    match sender.on_feedback(Feedback::Progress { pkts: 5, span: None, t_ms: 100 }) {
        Heard::Report { pkts, span, sent: s, bytes_sent, t_ms } => {
            assert_eq!((pkts, span, s, t_ms), (5, None, sent, 100));
            assert_eq!(bytes_sent, sender.bytes_sent());
        }
        _ => panic!("a report"),
    }
    assert!(matches!(
        sender.on_feedback(Feedback::Progress { pkts: 5, span: Some(9), t_ms: 100 }),
        Heard::Report { sent: 9, .. }
    ));
    match sender.on_feedback(Feedback::Closed("eof".into())) {
        Heard::Lost(e) => assert_eq!(e.message(), "protocol: control connection lost: eof"),
        _ => panic!("lost"),
    }
    assert!(matches!(
        sender.on_feedback(Feedback::Done { ok: true, error: None }),
        Heard::Finished { ok: true, error: None }
    ));
}

#[test]
fn ids_run_out() {
    let layout = Layout::new(64, 64, 16);
    let mut sender = Sender::new(test_data(64, 1), layout, TxPlane::Plain, 1, 0);
    let _ = sender.next(Event::Drained);
    assert!(sender.has_room((1 << 24) - 4));
    assert!(!sender.has_room((1 << 24) - 3));
    assert!(!sender.has_room(u32::MAX));
}

#[test]
fn outcomes() {
    assert!(outcome(true, None).is_ok());
    assert!(outcome(true, Some("ignored".into())).is_ok());
    assert_eq!(
        outcome(false, None).err().expect("failed").message(),
        "transfer failed: receiver reported failure"
    );
    assert_eq!(
        outcome(false, Some("bad".into())).err().expect("failed").message(),
        "transfer failed: bad"
    );
}

#[test]
fn greetings_are_checked() {
    assert!(matches!(
        check_hello(&Frame::Hello { version: 2, transfer_tag: 8 }),
        Greeting::Accepted { transfer_tag: 8 }
    ));
    match check_hello(&Frame::Hello { version: 1, transfer_tag: 8 }) {
        Greeting::Refused { reply, error } => {
            assert_eq!(error.message(), "protocol: version mismatch: peer 1, ours 2");
            match reply {
                Frame::Done { ok, error } => {
                    assert!(!ok);
                    assert_eq!(error.as_deref(), Some("version mismatch: peer 1, ours 2"));
                }
                f => panic!("not done: {f:?}"),
            }
        }
        g => panic!("not refused: {g:?}"),
    }
    match check_hello(&Frame::ManifestAck) {
        Greeting::Broken(e) => {
            assert_eq!(e.message(), "protocol: expected Hello, got ManifestAck")
        }
        g => panic!("not broken: {g:?}"),
    }
    assert!(matches!(hello_ack(7), Frame::HelloAck { udp_port: 7 }));
}

fn manifest_of(file_size: u64, block_size: u32, symbol_size: u16, num_blocks: u32) -> Frame {
    Frame::Manifest {
        file_name: "f".into(),
        file_size,
        sha256: "00".into(),
        block_size,
        symbol_size,
        num_blocks,
    }
}

#[test]
fn manifests_are_checked() {
    let ok = check_manifest(manifest_of(2_500_000, 1 << 20, 1200, 3)).unwrap();
    assert_eq!(ok.layout, Layout::new(2_500_000, 1 << 20, 1200));
    assert_eq!(ok.file_name, "f");
    assert_eq!(ok.sha256, "00");
    let message = |f: Frame| check_manifest(f).err().expect("refused").message();
    for bad in [
        manifest_of(0, 1, 1, 0),
        manifest_of(1, 0, 1, 1),
        manifest_of(1, 1, 0, 1),
    ] {
        assert_eq!(message(bad), "protocol: degenerate manifest");
    }
    assert_eq!(
        message(manifest_of(10, 3, 1, 5)),
        "protocol: block count mismatch: manifest 5, computed 4"
    );
    assert_eq!(
        message(Frame::ManifestAck),
        "protocol: expected Manifest, got ManifestAck"
    );
    assert!(is_countable(&manifest_of(10, 3, 1, 5)));
    assert!(!is_countable(&manifest_of(1 << 40, 1, 1, 5)));
    assert!(is_countable(&manifest_of(1 << 40, 0, 1, 5)));
    assert!(is_countable(&manifest_of(1 << 40, 1, 0, 5)));
    assert_eq!(
        message(manifest_of(1 << 40, 1, 0, 5)),
        "protocol: degenerate manifest",
        "too many blocks to count, but that is not looked at"
    );
    assert!(is_countable(&Frame::ManifestAck));
}

#[test]
fn datagrams_that_are_not_wanted() {
    let layout = Layout::new(64, 64, 16);
    let mut receiver = Receiver::new(layout, RxPlane::Plain, 5);
    let mut tx = TxPlane::Plain;
    let mut give = |receiver: &mut Receiver, tag: u64, b: u32, payload: &[u8]| {
        let mut wire = tx.encode(tag, b, payload).unwrap();
        receiver.on_datagram(&mut wire)
    };
    assert!(matches!(give(&mut receiver, 6, 0, &[0u8; 20]), Delivery::Dropped));
    assert!(matches!(give(&mut receiver, 5, 0, &[0u8; 3]), Delivery::Dropped));
    assert_eq!(receiver.packets(), 0);
    assert!(receiver.progress(1).is_none());
    assert!(matches!(give(&mut receiver, 5, 1, &[0u8; 20]), Delivery::Stray));
    assert!(matches!(give(&mut receiver, 5, 0, &[1u8; 20]), Delivery::Malformed));
    assert_eq!(receiver.packets(), 2);
    for esi in 0..3u8 {
        let mut p = vec![esi; 20];
        p[..4].copy_from_slice(&[0, 0, 0, esi]);
        assert!(matches!(give(&mut receiver, 5, 0, &p), Delivery::Fed));
    }
    let mut p = vec![3u8; 20];
    p[..4].copy_from_slice(&[0, 0, 0, 3]);
    match give(&mut receiver, 5, 0, &p) {
        Delivery::Decoded { block, data } => {
            assert_eq!(block, 0);
            let expected: Vec<u8> = (0..64u8).map(|i| i / 16).collect();
            assert_eq!(data, expected);
        }
        _ => panic!("all source packets are there"),
    }
    assert!(!receiver.is_complete());
    receiver.written(0);
    assert!(receiver.is_complete());
    assert!(matches!(give(&mut receiver, 5, 0, &p), Delivery::Late));
    assert_eq!(receiver.late_packets(), 1);
    assert_eq!(receiver.take_acks(), vec![0]);
    assert!(receiver.take_acks().is_empty());
}

#[test]
fn reports_and_ticks() {
    let key = [9u8; 32];
    let layout = Layout::new(64, 64, 16);
    let rx = RxPlane::Sealed(Box::new(SymbolOpener::new(&key)));
    let mut receiver = Receiver::new(layout, rx, 1);
    let mut tx = TxPlane::Sealed(SymbolSealer::new(&key));
    tx.burn_seq();
    let mut wire = tx.encode(1, 0, &[0u8; 20]).unwrap();
    assert!(matches!(receiver.on_datagram(&mut wire), Delivery::Fed));
    assert!(receiver.span_fits());
    assert!(matches!(
        receiver.progress(250),
        Some(Frame::Progress { pkts: 1, span: Some(2), t_ms: 250 })
    ));
    let shown: Vec<bool> = (0..10).map(|_| receiver.tick()).collect();
    assert_eq!(
        shown,
        vec![false, false, false, false, true, false, false, false, false, true]
    );
    assert_eq!(receiver.ticks(), 10);
}

#[test]
fn verdicts() {
    let a = "aa".to_string();
    let b = "bb".to_string();
    assert!(verdict(&a, &a).is_none());
    let error = verdict(&a, &b);
    assert_eq!(error.as_deref(), Some("sha256 mismatch: expected aa, got bb"));
    assert!(matches!(done(&None), Frame::Done { ok: true, error: None }));
    match done(&error) {
        Frame::Done { ok, error } => {
            assert!(!ok);
            assert_eq!(error.as_deref(), Some("sha256 mismatch: expected aa, got bb"));
        }
        f => panic!("not done: {f:?}"),
    }
    assert!(conclude(None).is_ok());
    match conclude(error) {
        Err(Error::Transfer(m)) => assert_eq!(m, "sha256 mismatch: expected aa, got bb"),
        _ => panic!("a failed transfer"),
    }
}

#[test]
fn receiver_arguments() {
    let args = RecvArgs {
        output: "out.bin".into(),
        listen: String::new(),
        udp_port: 0,
        nocrypto: true,
    };
    assert_eq!(args.output, std::path::PathBuf::from("out.bin"));
    assert!(args.listen.is_empty());
    assert_eq!(args.udp_port, 0);
    assert!(args.nocrypto);
}

#[test]
fn a_block_of_two_source_blocks_is_collected() {
    // 56404 symbols of one byte make two source blocks of 28202.
    let data = test_data(56404, 11);
    let layout = Layout::new(56404, u32::MAX, 1);
    assert!(!layout.is_codable());
    assert!(layout.is_decodable());
    let mut receiver = Receiver::new(layout, RxPlane::Plain, 5);
    let mut tx = TxPlane::Plain;
    let mut give = |receiver: &mut Receiver, source_block: u8, esi: usize, symbol: u8| {
        let id = (esi as u32).to_be_bytes();
        let packet = [source_block, id[1], id[2], id[3], symbol];
        let mut wire = tx.encode(5, 0, &packet).unwrap();
        receiver.on_datagram(&mut wire)
    };
    assert!(matches!(give(&mut receiver, 2, 0, 0), Delivery::Malformed));
    for i in 0..28202 {
        assert!(matches!(give(&mut receiver, 0, i, data[i]), Delivery::Fed));
    }
    for i in 0..28201 {
        assert!(matches!(give(&mut receiver, 1, i, data[28202 + i]), Delivery::Fed));
    }
    match give(&mut receiver, 1, 28201, data[56403]) {
        Delivery::Decoded { block, data: got } => {
            assert_eq!(block, 0);
            assert!(got == data);
        }
        _ => panic!("all source packets are there"),
    }
}

#[test]
fn source_packets_go_out_once() {
    // Three blocks of four symbols, none ever acknowledged.
    let layout = Layout::new(192, 64, 16);
    let mut sender = Sender::new(test_data(192, 9), layout, TxPlane::Plain, 1, 0);
    let mut seen = vec![[0u32; 4]; 3];
    let mut sized: Vec<(u32, u32)> = Vec::new();
    let mut event = Event::Drained;
    for _ in 0..80 {
        event = match sender.next(event) {
            Action::Drain => Event::Drained,
            Action::Size { block, round, .. } => {
                sized.push((round, block));
                Event::Sized(0)
            }
            Action::Flush => {
                let batch = sender.batch();
                for (from, to) in cuts(batch.len(), sender.segment_len(), 64) {
                    let gram = &batch[from..to];
                    let block = u32::from_le_bytes(gram[12..16].try_into().unwrap());
                    let esi = u32::from_be_bytes(gram[16..20].try_into().unwrap());
                    if esi < 4 {
                        seen[block as usize][esi as usize] += 1;
                    }
                }
                Event::Flushed { gone: false }
            }
            Action::RoundDone | Action::Sleep => Event::Slept,
            _ => panic!("nothing finishes here"),
        };
    }
    assert_eq!(sized[..6], [(0, 0), (0, 1), (0, 2), (1, 0), (1, 1), (1, 2)]);
    assert_eq!(seen, vec![[1u32; 4]; 3]);
}

#[test]
fn only_the_senders_datagrams_feed_the_receiver() {
    // Lost, repeated and reordered datagrams, and some of another sender.
    let data = test_data(640, 3);
    let layout = Layout::new(640, 640, 64);
    let key = [4u8; 32];
    let plane = TxPlane::Sealed(SymbolSealer::new(&key));
    let mut sender = Sender::new(data.clone(), layout, plane, 8, 0);
    let other = TxPlane::Sealed(SymbolSealer::new(&[5u8; 32]));
    let mut stranger = Sender::new(test_data(640, 4), layout, other, 8, 0);
    let opener = Box::new(SymbolOpener::new(&key));
    let mut receiver = Receiver::new(layout, RxPlane::Sealed(opener), 8);
    for s in [&mut sender, &mut stranger] {
        assert!(matches!(s.next(Event::Drained), Action::Size { .. }));
        assert!(matches!(s.next(Event::Sized(6)), Action::Flush));
    }
    let seg = sender.segment_len();
    assert_eq!(seg, 40 + 4 + 64);
    let grams = |s: &Sender| -> Vec<Vec<u8>> {
        cuts(s.batch().len(), seg, 64).iter().map(|c| s.batch()[c.0..c.1].to_vec()).collect()
    };
    let mut held: Option<Vec<u8>> = None;
    for (i, gram) in grams(&sender).iter().enumerate().rev() {
        let mut theirs = grams(&stranger)[i].clone();
        assert!(matches!(receiver.on_datagram(&mut theirs), Delivery::Dropped));
        if i % 4 == 3 {
            continue;
        }
        let mut first = gram.clone();
        match receiver.on_datagram(&mut first) {
            Delivery::Decoded { block, data } => {
                assert_eq!(block, 0);
                held = Some(data);
            }
            Delivery::Fed => {}
            _ => panic!("a packet of the file"),
        }
        let mut again = gram.clone();
        assert!(matches!(receiver.on_datagram(&mut again), Delivery::Dropped));
    }
    assert_eq!(held, Some(data));
}

#[test]
fn without_loss_one_round_is_enough() {
    for sealed in [false, true] {
        let run = transfer(90_000, 16 * 1024, 6, sealed, 0.0);
        assert_eq!(run.got, test_data(90_000, 6));
        assert_eq!(run.rounds, 0, "the verdict comes before round zero is over");
        assert_eq!(run.acked, vec![0, 1, 2, 3, 4, 5]);
    }
}

/// A receiver of one block of four symbols of sixteen bytes.
fn small_receiver() -> Receiver {
    Receiver::new(Layout::new(64, 64, 16), RxPlane::Plain, 5)
}

/// Hand over a plaintext packet for block zero.
fn hand_over(receiver: &mut Receiver, esi: u8, symbol: &[u8]) -> Delivery {
    let mut packet = vec![0, 0, 0, esi];
    packet.extend_from_slice(symbol);
    let mut wire = TxPlane::Plain.encode(5, 0, &packet).unwrap();
    receiver.on_datagram(&mut wire)
}

#[test]
fn longer_source_symbols_are_cut_to_length() {
    let mut receiver = small_receiver();
    for esi in 0..3u8 {
        let symbol = vec![esi; 16 + esi as usize];
        assert!(matches!(hand_over(&mut receiver, esi, &symbol), Delivery::Fed));
    }
    // The same id again, of whatever length, is passed over.
    assert!(matches!(hand_over(&mut receiver, 1, &[9]), Delivery::Fed));
    match hand_over(&mut receiver, 3, &[3; 40]) {
        Delivery::Decoded { block: 0, data } => {
            let expected: Vec<u8> = (0..64u8).map(|i| i / 16).collect();
            assert_eq!(data, expected);
        }
        _ => panic!("all source packets are there"),
    }
}

#[test]
fn symbols_that_the_decoder_cannot_work_with() {
    // A source symbol that is too short is kept, until the block is to be put
    // together with it.
    let mut receiver = small_receiver();
    for (esi, len) in [(0u8, 16), (1, 15), (2, 16)] {
        assert!(matches!(hand_over(&mut receiver, esi, &vec![esi; len]), Delivery::Fed));
    }
    assert!(matches!(hand_over(&mut receiver, 3, &[3; 16]), Delivery::Malformed));
    assert!(receiver.is_pending(0));
    assert_eq!(receiver.packets(), 4);
    // One of another length is no good for solving.
    let mut receiver = small_receiver();
    for esi in 0..3u8 {
        assert!(matches!(hand_over(&mut receiver, esi, &[esi; 16]), Delivery::Fed));
    }
    assert!(matches!(hand_over(&mut receiver, 4, &[4; 17]), Delivery::Malformed));
    assert!(matches!(hand_over(&mut receiver, 4, &[]), Delivery::Malformed));
    assert!(matches!(hand_over(&mut receiver, 3, &[3; 16]), Delivery::Decoded { .. }));
}

#[test]
fn blocks_that_cannot_be_decoded_take_nothing() {
    let layout = Layout::new(255 * 56403 + 1, u32::MAX, 1);
    let mut receiver = Receiver::new(layout, RxPlane::Plain, 5);
    assert!(matches!(hand_over(&mut receiver, 0, &[1]), Delivery::Malformed));
    assert!(receiver.is_pending(0));
}

#[test]
fn the_segment_length_is_that_of_the_datagrams() {
    // A symbol size of 1204 is rounded down to 1200.
    let data = test_data(10_000, 8);
    let layout = Layout::new(10_000, 10_000, 1204);
    for (plane, seg) in [
        (TxPlane::Plain, 16 + 4 + 1200),
        (TxPlane::Sealed(SymbolSealer::new(&[6u8; 32])), 40 + 4 + 1200),
    ] {
        let rx = match plane {
            TxPlane::Plain => RxPlane::Plain,
            TxPlane::Sealed(_) => RxPlane::Sealed(Box::new(SymbolOpener::new(&[6u8; 32]))),
        };
        let mut sender = Sender::new(data.clone(), layout, plane, 3, 0);
        let mut receiver = Receiver::new(layout, rx, 3);
        assert_eq!(sender.segment_len(), seg);
        assert!(matches!(sender.next(Event::Drained), Action::Size { .. }));
        assert!(matches!(sender.next(Event::Sized(2)), Action::Flush));
        // Nine source packets and two of repair.
        assert_eq!(sender.batch().len(), 11 * seg);
        assert_eq!(sender.bytes_sent(), 11 * seg as u64);
        let mut held: Option<Vec<u8>> = None;
        for (from, to) in cuts(sender.batch().len(), seg, 64) {
            let mut gram = sender.batch()[from..to].to_vec();
            if let Delivery::Decoded { data, .. } = receiver.on_datagram(&mut gram) {
                held = Some(data);
                break;
            }
        }
        assert_eq!(held, Some(data.clone()));
    }
}

#[test]
fn a_receive_buffer_holds_what_was_opened() {
    let key = [9u8; 32];
    let opener = Box::new(SymbolOpener::new(&key));
    let mut receiver = Receiver::new(Layout::new(64, 64, 16), RxPlane::Sealed(opener), 1);
    let wire = TxPlane::Sealed(SymbolSealer::new(&key)).encode(1, 0, &[7u8; 20]).unwrap();
    let mut buf = wire.clone();
    assert!(matches!(receiver.on_datagram(&mut buf), Delivery::Malformed));
    assert_eq!(buf[..20], wire[..20]);
    assert_eq!(buf[20..24], [0u8; 4]);
    assert_eq!(buf[24..44], [7u8; 20]);
    assert_eq!(buf[44..], wire[44..]);
    let mut again = wire.clone();
    assert!(matches!(receiver.on_datagram(&mut again), Delivery::Dropped));
    assert_eq!(again, wire);
}

#[test]
fn no_report_before_the_first_packet() {
    // The highest number there is was accepted, but it carried no packet.
    let key = [9u8; 32];
    let sealer = SymbolSealer::new(&key);
    let mut header = b"ATRS".to_vec();
    header.extend_from_slice(&1u64.to_le_bytes());
    header.extend_from_slice(&u64::MAX.to_le_bytes());
    let mut body = 0u32.to_le_bytes().to_vec();
    let tag = sealer.seal_in_place(u64::MAX, &header, &mut body).unwrap();
    let mut wire = header;
    wire.extend_from_slice(&body);
    wire.extend_from_slice(&tag);
    let opener = Box::new(SymbolOpener::new(&key));
    let mut receiver = Receiver::new(Layout::new(64, 64, 16), RxPlane::Sealed(opener), 1);
    assert!(matches!(receiver.on_datagram(&mut wire), Delivery::Dropped));
    assert!(!receiver.span_fits());
    assert!(receiver.progress(1).is_none());
}

#[test]
fn a_transfer_ends_alike_on_both_sides() {
    let sha = sha256_hex(b"file");
    for (out, ok) in [(&b"file"[..], true), (&b"other"[..], false)] {
        let error = verdict(&sha, &sha256_hex(out));
        let report = feedback_of(done(&error));
        let receiver = conclude(error);
        let sender = match report {
            Feedback::Done { ok, error } => outcome(ok, error),
            _ => panic!("a verdict"),
        };
        assert_eq!(receiver.is_ok(), ok);
        assert_eq!(sender.is_ok(), ok);
        assert_eq!(
            receiver.err().map(|e| e.message()),
            sender.err().map(|e| e.message())
        );
    }
}

#[test]
fn a_handshake_comes_to_an_agreement() {
    let layout = Layout::new(2_500_000, 1 << 20, 1200);
    assert!(matches!(check_hello(&hello(77)), Greeting::Accepted { transfer_tag: 77 }));
    assert_eq!(check_hello_ack(&hello_ack(4000)).ok(), Some(4000));
    let frame = manifest("name".into(), "digest".into(), &layout);
    assert!(is_countable(&frame));
    let incoming = check_manifest(frame).ok().expect("agreed");
    assert_eq!(incoming.file_name, "name");
    assert_eq!(incoming.sha256, "digest");
    assert_eq!(incoming.layout, layout);
    assert!(check_manifest_ack(&Frame::ManifestAck).is_ok());
}
