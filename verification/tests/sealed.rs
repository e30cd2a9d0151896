//! Sealed datagrams and the anti-replay window.

use atp_experiment::aead::TAG_LEN;
use atp_experiment::replay::{ReplayWindow, REPLAY_WINDOW_BITS};
use atp_experiment::sealed::{
    open_datagram, seal_datagram, seal_datagram_into, seq_nonce, SymbolOpenError, SymbolOpener,
    SymbolSealer, HEADER_LEN, MAGIC, OVERHEAD,
};
use atp_experiment::tls::SEAL_KEY_LEN;

fn test_key(byte: u8) -> [u8; SEAL_KEY_LEN] {
    [byte; SEAL_KEY_LEN]
}

#[test]
fn symbol_seal_open_roundtrip() {
    let key = test_key(8);
    let mut sealer = SymbolSealer::new(&key);
    let mut opener = SymbolOpener::new(&key);

    let aad = b"header-bytes-as-aad";
    let mut body = b"raptorq symbol payload".to_vec();
    let plain = body.clone();
    let seq = sealer.next_seq();
    let tag = sealer.seal_in_place(seq, aad, &mut body).expect("seal");
    assert_ne!(body, plain, "body must be encrypted");
    opener
        .open_in_place(seq, aad, &mut body, &tag)
        .expect("open");
    assert_eq!(body, plain);
}

#[test]
fn symbol_open_rejects_wrong_key_and_wrong_aad() {
    let mut sealer = SymbolSealer::new(&test_key(1));
    let mut opener_wrong_key = SymbolOpener::new(&test_key(2));
    let mut opener_right_key = SymbolOpener::new(&test_key(1));

    let mut body = b"payload".to_vec();
    let seq = sealer.next_seq();
    let tag = sealer.seal_in_place(seq, b"aad", &mut body).expect("seal");

    let mut attempt = body.clone();
    assert_eq!(
        opener_wrong_key.open_in_place(seq, b"aad", &mut attempt, &tag),
        Err(SymbolOpenError::BadTag)
    );
    let mut attempt = body.clone();
    assert_eq!(
        opener_right_key.open_in_place(seq, b"tampered-aad", &mut attempt, &tag),
        Err(SymbolOpenError::BadTag)
    );
    // The failed attempts must not have advanced the replay window.
    let mut attempt = body.clone();
    opener_right_key
        .open_in_place(seq, b"aad", &mut attempt, &tag)
        .expect("legitimate open after failed forgeries");
}

#[test]
fn symbol_open_rejects_replay_and_forgery() {
    let key = test_key(10);
    let mut sealer = SymbolSealer::new(&key);
    let mut opener = SymbolOpener::new(&key);

    let aad = b"aad";
    let mut body = b"payload".to_vec();
    let seq = sealer.next_seq();
    let tag = sealer.seal_in_place(seq, aad, &mut body).expect("seal");

    let mut copy = body.clone();
    opener
        .open_in_place(seq, aad, &mut copy, &tag)
        .expect("first delivery");

    // Exact replay is rejected before any decryption.
    let mut replayed = body.clone();
    assert_eq!(
        opener.open_in_place(seq, aad, &mut replayed, &tag),
        Err(SymbolOpenError::Replay)
    );

    // Forged tag under a fresh sequence number is rejected without
    // advancing the window.
    let mut forged = body.clone();
    assert_eq!(
        opener.open_in_place(seq + 1, aad, &mut forged, &[0u8; TAG_LEN]),
        Err(SymbolOpenError::BadTag)
    );

    // The legitimate next datagram still opens.
    let mut next = b"payload-two".to_vec();
    let next_seq = sealer.next_seq();
    let next_tag = sealer
        .seal_in_place(next_seq, aad, &mut next)
        .expect("seal");
    opener
        .open_in_place(next_seq, aad, &mut next, &next_tag)
        .expect("next delivery");
}

#[test]
fn symbol_open_accepts_reordering_within_window() {
    let key = test_key(11);
    let mut sealer = SymbolSealer::new(&key);
    let mut opener = SymbolOpener::new(&key);
    let aad = b"aad";

    // Seal seq 0..5, deliver out of order: 3, 1, 4, 0, 2, 5.
    let mut sealed = Vec::new();
    for i in 0..6u64 {
        let seq = sealer.next_seq();
        assert_eq!(seq, i);
        let mut body = format!("payload-{i}").into_bytes();
        let tag = sealer.seal_in_place(seq, aad, &mut body).expect("seal");
        sealed.push((seq, body, tag));
    }
    for &index in &[3usize, 1, 4, 0, 2, 5] {
        let (seq, body, tag) = &sealed[index];
        let mut body = body.clone();
        opener
            .open_in_place(*seq, aad, &mut body, tag)
            .unwrap_or_else(|err| panic!("seq {seq} rejected: {err:?}"));
        assert_eq!(body, format!("payload-{seq}").into_bytes());
    }
    // Every one of them is now a replay.
    for (seq, body, tag) in &sealed {
        let mut body = body.clone();
        assert_eq!(
            opener.open_in_place(*seq, aad, &mut body, tag),
            Err(SymbolOpenError::Replay)
        );
    }
}

#[test]
fn replay_window_expires_stale_sequences() {
    let mut window = ReplayWindow::new();
    window.commit(0);
    window.commit(REPLAY_WINDOW_BITS + 10);
    // seq 0 is far behind the window now.
    assert!(!window.would_accept(0));
    assert!(!window.would_accept(10));
    // In-window untouched slots are accepted.
    assert!(window.would_accept(REPLAY_WINDOW_BITS + 9));
    assert!(window.would_accept(11));
    // The committed head is a replay.
    assert!(!window.would_accept(REPLAY_WINDOW_BITS + 10));
}

#[test]
fn replay_window_reused_slots_after_large_advance() {
    let mut window = ReplayWindow::new();
    // Commit a run, then jump far ahead; slots that alias modulo the
    // window width must have been cleared.
    for seq in 0..64u64 {
        window.commit(seq);
    }
    let jump = REPLAY_WINDOW_BITS * 3 + 7;
    window.commit(jump);
    for probe in (jump - 63)..jump {
        assert!(
            window.would_accept(probe),
            "slot for {probe} should be clear after advance"
        );
    }
    assert!(!window.would_accept(jump));
}

#[test]
fn datagram_seal_open_round_trip_and_tamper() {
    let key = test_key(42);
    let mut sealer = SymbolSealer::new(&key);
    let mut opener = SymbolOpener::new(&key);

    let wire = seal_datagram(&mut sealer, 77, 5, b"encoding-packet-bytes").unwrap();
    assert_eq!(wire.len(), OVERHEAD + 4 + b"encoding-packet-bytes".len());
    // Payload must not appear in clear on the wire.
    assert!(!wire.windows(8).any(|w| w == b"encoding"));

    let mut copy = wire.clone();
    let (block, payload) = open_datagram(&mut opener, 77, &mut copy).expect("opens");
    assert_eq!(block, 5);
    assert_eq!(payload, b"encoding-packet-bytes");

    // Replay of the same datagram: dropped.
    let mut copy = wire.clone();
    assert!(open_datagram(&mut opener, 77, &mut copy).is_none());

    // Wrong transfer tag: dropped before any crypto.
    let wire2 = seal_datagram(&mut sealer, 77, 6, b"x").unwrap();
    let mut copy = wire2.clone();
    assert!(open_datagram(&mut opener, 78, &mut copy).is_none());

    // Flip one ciphertext bit: dropped.
    let wire3 = seal_datagram(&mut sealer, 77, 7, b"y").unwrap();
    let mut tampered = wire3.clone();
    tampered[HEADER_LEN] ^= 1;
    assert!(open_datagram(&mut opener, 77, &mut tampered).is_none());
    // Untampered copy still opens (window not poisoned).
    let mut copy = wire3.clone();
    assert!(open_datagram(&mut opener, 77, &mut copy).is_some());
}

#[test]
fn nonces_are_the_number_in_network_order() {
    assert_eq!(seq_nonce(0), [0u8; 12]);
    assert_eq!(
        seq_nonce(0x0102_0304_0506_0708),
        [0, 0, 0, 0, 1, 2, 3, 4, 5, 6, 7, 8]
    );
    assert_eq!(
        seq_nonce(u64::MAX),
        [0, 0, 0, 0, 255, 255, 255, 255, 255, 255, 255, 255]
    );
    assert_ne!(seq_nonce(1), seq_nonce(256));
}

#[test]
fn sealed_header_is_in_the_clear() {
    let mut sealer = SymbolSealer::new(&test_key(5));
    sealer.next_seq();
    let wire = seal_datagram(&mut sealer, 0x1122_3344_5566_7788, 9, b"payload").unwrap();
    assert_eq!(&MAGIC, b"ATRS");
    assert_eq!(&wire[..4], b"ATRS");
    assert_eq!(wire[4..12], 0x1122_3344_5566_7788u64.to_le_bytes());
    assert_eq!(wire[12..20], 1u64.to_le_bytes());
}

#[test]
fn sealing_the_same_payload_twice_differs() {
    let mut sealer = SymbolSealer::new(&test_key(6));
    let one = seal_datagram(&mut sealer, 1, 1, b"same").unwrap();
    let two = seal_datagram(&mut sealer, 1, 1, b"same").unwrap();
    assert_ne!(one[HEADER_LEN..], two[HEADER_LEN..]);
}

#[test]
fn sealing_appends_to_a_batch() {
    let key = test_key(7);
    let mut sealer = SymbolSealer::new(&key);
    let mut opener = SymbolOpener::new(&key);
    let mut batch = Vec::new();
    seal_datagram_into(&mut sealer, 3, 10, b"first", &mut batch).unwrap();
    let cut = batch.len();
    seal_datagram_into(&mut sealer, 3, 11, b"second", &mut batch).unwrap();
    let (a, b) = batch.split_at_mut(cut);
    assert_eq!(open_datagram(&mut opener, 3, b), Some((11, &b"second"[..])));
    assert_eq!(open_datagram(&mut opener, 3, a), Some((10, &b"first"[..])));
    assert_eq!(opener.seq_span(), Some(2));
}

#[test]
fn every_bit_of_a_datagram_is_protected() {
    let key = test_key(12);
    let mut sealer = SymbolSealer::new(&key);
    let wire = seal_datagram(&mut sealer, 1, 2, b"abc").unwrap();
    for i in 0..wire.len() {
        let mut opener = SymbolOpener::new(&key);
        let mut bad = wire.clone();
        bad[i] ^= 0x10;
        let before = bad.clone();
        assert!(open_datagram(&mut opener, 1, &mut bad).is_none(), "byte {i}");
        assert_eq!(bad, before, "a dropped datagram is left as it came");
        assert_eq!(opener.seq_span(), None, "the window has not moved");
    }
}

#[test]
fn truncated_datagrams_are_dropped() {
    let key = test_key(13);
    let mut sealer = SymbolSealer::new(&key);
    let mut opener = SymbolOpener::new(&key);
    let wire = seal_datagram(&mut sealer, 1, 2, b"").unwrap();
    assert_eq!(wire.len(), OVERHEAD + 4);
    for n in 0..wire.len() {
        let mut part = wire[..n].to_vec();
        assert!(open_datagram(&mut opener, 1, &mut part).is_none());
    }
    let mut copy = wire.clone();
    assert_eq!(open_datagram(&mut opener, 1, &mut copy), Some((2, &b""[..])));
    assert_eq!(copy[HEADER_LEN..HEADER_LEN + 4], [2, 0, 0, 0], "decrypted in place");
}

#[test]
fn tags_of_another_length_are_refused() {
    let mut opener = SymbolOpener::new(&test_key(14));
    let mut body = vec![1u8, 2, 3];
    assert_eq!(
        opener.open_in_place(0, b"", &mut body, &[0u8; 15]),
        Err(SymbolOpenError::BadTag)
    );
    assert_eq!(body, vec![1, 2, 3]);
}

#[test]
fn a_known_sealed_body() {
    // ChaCha20-Poly1305 of RFC 8439 under the nonce of number seven.
    let mut key = [0u8; 32];
    for i in 0..32u8 {
        key[i as usize] = 0x80 + i;
    }
    let sealer = SymbolSealer::new(&key);
    let mut body = b"symbol".to_vec();
    let tag = sealer.seal_in_place(7, b"header", &mut body).unwrap();
    assert_eq!(body, vec![189, 64, 80, 199, 61, 106]);
    assert_eq!(
        tag,
        [223, 134, 48, 219, 17, 44, 178, 229, 190, 180, 27, 168, 106, 140, 81, 137]
    );
}

#[test]
fn a_known_sealed_datagram() {
    let mut sealer = SymbolSealer::new(&test_key(42));
    let wire = seal_datagram(&mut sealer, 77, 5, b"p").unwrap();
    let text: String = wire.iter().map(|b| format!("{b:02x}")).collect();
    assert_eq!(
        text,
        "415452534d00000000000000000000000000000033f00e57a43ed9432818b97cc09f589c4e665baf81"
    );
}

#[test]
fn window_edges() {
    let mut window = ReplayWindow::new();
    assert_eq!(window.highest_seq(), None);
    window.commit(5000);
    assert_eq!(window.highest_seq(), Some(5000));
    assert!(window.would_accept(5000 - (REPLAY_WINDOW_BITS - 1)));
    assert!(!window.would_accept(5000 - REPLAY_WINDOW_BITS));
    window.commit(5000 - (REPLAY_WINDOW_BITS - 1));
    assert!(!window.would_accept(5000 - (REPLAY_WINDOW_BITS - 1)));
    assert_eq!(window.highest_seq(), Some(5000));
    window.commit(u64::MAX);
    assert!(!window.would_accept(u64::MAX));
    assert!(window.would_accept(u64::MAX - 1));
}

#[test]
fn the_last_number_has_no_span() {
    let key = test_key(15);
    let sealer = SymbolSealer::new(&key);
    let mut opener = SymbolOpener::new(&key);
    let mut body = b"end".to_vec();
    let tag = sealer.seal_in_place(u64::MAX, b"", &mut body).unwrap();
    assert!(opener.span_fits());
    opener.open_in_place(u64::MAX, b"", &mut body, &tag).unwrap();
    assert!(!opener.span_fits());
}

#[test]
fn replayed_and_stale_numbers_leave_the_body_as_it_was() {
    let key = test_key(21);
    let sealer = SymbolSealer::new(&key);
    let mut opener = SymbolOpener::new(&key);
    let sealed = |seq: u64| {
        let mut body = b"body".to_vec();
        let tag = sealer.seal_in_place(seq, b"aad", &mut body).unwrap();
        (body, tag)
    };
    let (mut body, tag) = sealed(5000);
    opener.open_in_place(5000, b"aad", &mut body, &tag).unwrap();
    // 904 lies a window's width behind, 905 just inside; what else is asked
    // makes no difference.
    for (seq, aad) in [(904, &b"aad"[..]), (904, &b"other"[..]), (5000, &b"aad"[..]), (0, b"")] {
        let (body, tag) = sealed(seq);
        let mut attempt = body.clone();
        assert_eq!(
            opener.open_in_place(seq, aad, &mut attempt, &tag),
            Err(SymbolOpenError::Replay)
        );
        assert_eq!(attempt, body);
    }
    let (mut body, tag) = sealed(905);
    opener.open_in_place(905, b"aad", &mut body, &tag).unwrap();
    assert_eq!(body, b"body");
    assert_eq!(
        opener.open_in_place(905, b"aad", &mut body, &tag),
        Err(SymbolOpenError::Replay)
    );
}

#[test]
fn refused_calls_leave_no_trace() {
    let key = test_key(22);
    let sealer = SymbolSealer::new(&key);
    let mut opener = SymbolOpener::new(&key);
    let mut untroubled = SymbolOpener::new(&key);
    for seq in [7u64, 3, 9000, 7, 4905, 4903, 9001] {
        // A forged number far ahead, and a tag of the wrong length.
        let mut forged = b"forged".to_vec();
        assert_eq!(
            opener.open_in_place(u64::MAX, b"", &mut forged, &[0u8; TAG_LEN]),
            Err(SymbolOpenError::BadTag)
        );
        assert_eq!(
            opener.open_in_place(seq, b"", &mut forged, &[0u8; TAG_LEN - 1]),
            Err(SymbolOpenError::BadTag)
        );
        assert_eq!(forged, b"forged");
        let mut one = b"body".to_vec();
        let tag = sealer.seal_in_place(seq, b"", &mut one).unwrap();
        let mut two = one.clone();
        assert_eq!(
            opener.open_in_place(seq, b"", &mut one, &tag),
            untroubled.open_in_place(seq, b"", &mut two, &tag)
        );
        assert_eq!(one, two);
        assert_eq!(opener.seq_span(), untroubled.seq_span());
    }
    assert_eq!(opener.seq_span(), Some(9002));
}
