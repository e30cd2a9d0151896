//! Plaintext datagrams and the two planes.

use atp_experiment::datagram::{decode, encode, encode_into, RxPlane, TxPlane, HEADER_LEN, MAGIC};
use atp_experiment::sealed::{SymbolOpener, SymbolSealer, OVERHEAD};
use atp_experiment::udp::cuts;

#[test]
fn datagram_round_trip() {
    let wire = encode(42, 7, b"symbol-bytes");
    let dg = decode(42, &wire).expect("decodes");
    assert_eq!(dg.block_index, 7);
    assert_eq!(dg.payload, b"symbol-bytes");
}

#[test]
fn rejects_garbage() {
    assert!(decode(42, b"short").is_none());
    let wire = encode(42, 7, b"x");
    assert!(decode(43, &wire).is_none(), "wrong tag");
    let mut bad = wire.clone();
    bad[0] ^= 0xff;
    assert!(decode(42, &bad).is_none(), "wrong magic");
}

#[test]
fn plaintext_bytes_on_the_wire() {
    let wire = encode(0x0102_0304_0506_0708, 0x0a0b_0c0d, b"pq");
    assert_eq!(&MAGIC, b"ATP2");
    assert_eq!(
        wire,
        vec![
            b'A', b'T', b'P', b'2', 8, 7, 6, 5, 4, 3, 2, 1, 0x0d, 0x0c, 0x0b, 0x0a, b'p', b'q'
        ]
    );
}

#[test]
fn an_empty_payload_is_carried() {
    let wire = encode(1, 2, b"");
    assert_eq!(wire.len(), HEADER_LEN);
    let dg = decode(1, &wire).expect("decodes");
    assert_eq!(dg.block_index, 2);
    assert!(dg.payload.is_empty());
    assert!(decode(1, &wire[..HEADER_LEN - 1]).is_none());
}

#[test]
fn every_magic_byte_counts() {
    let wire = encode(5, 6, b"abc");
    for i in 0..4 {
        let mut bad = wire.clone();
        bad[i] = bad[i].wrapping_add(1);
        assert!(decode(5, &bad).is_none());
    }
}

#[test]
fn encode_into_appends() {
    let mut out = vec![9u8, 9];
    encode_into(1, 2, b"a", &mut out);
    encode_into(1, 3, b"b", &mut out);
    let one = encode(1, 2, b"a");
    let two = encode(1, 3, b"b");
    assert_eq!(out[..2], [9, 9]);
    assert_eq!(out[2..2 + one.len()], one);
    assert_eq!(out[2 + one.len()..], two);
}

#[test]
fn planes_of_one_session_round_trip() {
    let key = [3u8; 32];
    let mut planes = vec![
        (TxPlane::Plain, RxPlane::Plain),
        (
            TxPlane::Sealed(SymbolSealer::new(&key)),
            RxPlane::Sealed(Box::new(SymbolOpener::new(&key))),
        ),
    ];
    for (tx, rx) in planes.iter_mut() {
        for b in 0..5u32 {
            let payload = vec![b as u8; 100];
            let mut wire = tx.encode(77, b, &payload).expect("encodes");
            assert_eq!(wire.len(), tx.wire_len(100));
            let (block, got) = rx.open(77, &mut wire).expect("opens");
            assert_eq!(block, b);
            assert_eq!(got, &payload[..]);
        }
    }
}

#[test]
fn wire_lengths() {
    assert_eq!(TxPlane::Plain.wire_len(1204), 16 + 1204);
    let sealed = TxPlane::Sealed(SymbolSealer::new(&[1u8; 32]));
    assert_eq!(sealed.wire_len(1204), OVERHEAD + 4 + 1204);
    assert_eq!(sealed.wire_len(1204), 1244);
}

#[test]
fn a_burned_number_widens_the_span() {
    let key = [4u8; 32];
    let mut tx = TxPlane::Sealed(SymbolSealer::new(&key));
    let mut rx = RxPlane::Sealed(Box::new(SymbolOpener::new(&key)));
    assert_eq!(rx.seq_span(), None);
    tx.burn_seq();
    tx.burn_seq();
    let mut out = Vec::new();
    tx.encode_into(1, 0, b"late", &mut out).expect("encodes");
    assert!(rx.open(1, &mut out).is_some());
    assert!(rx.span_fits());
    assert_eq!(rx.seq_span(), Some(3));
    let mut plain = TxPlane::Plain;
    plain.burn_seq();
    assert_eq!(RxPlane::Plain.seq_span(), None);
}

#[test]
fn planes_of_different_sessions_drop() {
    let mut tx = TxPlane::Sealed(SymbolSealer::new(&[1u8; 32]));
    let mut other = RxPlane::Sealed(Box::new(SymbolOpener::new(&[2u8; 32])));
    let wire = tx.encode(1, 0, b"secret").expect("encodes");
    let mut copy = wire.clone();
    assert!(other.open(1, &mut copy).is_none());
    assert_eq!(copy, wire, "a dropped datagram is left as it came");
    assert!(RxPlane::Plain.open(1, &mut copy).is_none());
}

#[test]
fn datagrams_have_the_length_that_the_plane_says() {
    let mut plain = TxPlane::Plain;
    let mut sealed = TxPlane::Sealed(SymbolSealer::new(&[1u8; 32]));
    for n in [0usize, 1, 63, 64, 1204] {
        let payload = vec![7u8; n];
        assert_eq!(plain.wire_len(n), n + 16);
        assert_eq!(sealed.wire_len(n), n + 40);
        assert_eq!(plain.encode(1, 2, &payload).unwrap().len(), n + 16);
        assert_eq!(sealed.encode(1, 2, &payload).unwrap().len(), n + 40);
        let mut out = vec![9u8; 3];
        plain.encode_into(1, 2, &payload, &mut out).unwrap();
        assert_eq!(out.len(), 3 + n + 16);
        sealed.encode_into(1, 2, &payload, &mut out).unwrap();
        assert_eq!(out.len(), 3 + n + 16 + n + 40);
    }
}

#[test]
fn a_batch_is_cut_back_into_its_datagrams() {
    for mut plane in [TxPlane::Plain, TxPlane::Sealed(SymbolSealer::new(&[2u8; 32]))] {
        let mut batch: Vec<u8> = Vec::new();
        let mut ends: Vec<usize> = Vec::new();
        for i in 0..5u8 {
            plane.encode_into(3, 4, &[i; 20], &mut batch).unwrap();
            ends.push(batch.len());
        }
        let seg = plane.wire_len(20);
        let pieces = cuts(batch.len(), seg, 64);
        assert_eq!(pieces.len(), 5);
        let mut rx = match plane {
            TxPlane::Plain => RxPlane::Plain,
            TxPlane::Sealed(_) => RxPlane::Sealed(Box::new(SymbolOpener::new(&[2u8; 32]))),
        };
        for (i, (from, to)) in pieces.into_iter().enumerate() {
            assert_eq!(to, ends[i]);
            let mut gram = batch[from..to].to_vec();
            assert_eq!(rx.open(3, &mut gram), Some((4, &[i as u8; 20][..])));
        }
    }
}
