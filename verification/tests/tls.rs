//! Identities, fingerprints and pins.

use atp_experiment::digest::{digest_of, sha256_hex, FileHasher};
use atp_experiment::tls::{
    parse_pin, pin_matches, Identity, PKCS8_LEN, PRIVATE_AT, PRIVATE_END,
    SEAL_EXPORTER_LABEL, SEAL_KEY_LEN, SNI,
};

#[test]
fn pin_parsing() {
    let id = Identity::generate().unwrap();
    let fp = id.fingerprint();
    assert_eq!(fp.len(), 64);
    assert!(parse_pin(&fp).is_ok());
    let colons: String = fp
        .as_bytes()
        .chunks(2)
        .map(|c| std::str::from_utf8(c).unwrap())
        .collect::<Vec<_>>()
        .join(":");
    assert_eq!(parse_pin(&colons).unwrap(), parse_pin(&fp).unwrap());
    assert!(parse_pin("beef").is_err(), "too short");
    assert!(parse_pin("zz").is_err(), "not hex");
}

#[test]
fn fingerprints_are_unique_per_identity() {
    let a = Identity::generate().unwrap();
    let b = Identity::generate().unwrap();
    assert_ne!(a.fingerprint(), b.fingerprint());
}

#[test]
fn pins_tolerate_white_space_and_case() {
    let fp = "055951b19c666f1f0e920b846b9aa2dee8a8270cc84d8694dabd64e10f765c8d";
    let plain = parse_pin(fp).unwrap();
    assert_eq!(plain[0], 0x05);
    assert_eq!(plain[31], 0x8d);
    assert_eq!(parse_pin(&fp.to_uppercase()).unwrap(), plain);
    assert_eq!(parse_pin(&format!(" {fp}\n")).unwrap(), plain);
    assert_eq!(parse_pin(&format!("{}\t{}", &fp[..31], &fp[31..])).unwrap(), plain);
    assert_eq!(parse_pin(&format!("{}\u{3000}{}", &fp[..2], &fp[2..])).unwrap(), plain);
}

#[test]
fn pin_errors_say_what_is_wrong() {
    let message = |s: &str| parse_pin(s).err().expect("an error").message();
    assert_eq!(
        message("zz"),
        "transfer failed: --pin is not valid hex: \"zz\""
    );
    assert_eq!(
        message("a\"b"),
        "transfer failed: --pin is not valid hex: \"a\\\"b\""
    );
    assert_eq!(message("abc"), "transfer failed: --pin is not valid hex: \"abc\"");
    assert_eq!(
        message("beef"),
        "transfer failed: --pin must be a 32-byte (64 hex char) SHA-256"
    );
    assert_eq!(
        message(""),
        "transfer failed: --pin must be a 32-byte (64 hex char) SHA-256"
    );
    assert_eq!(
        message(&"ab".repeat(33)),
        "transfer failed: --pin must be a 32-byte (64 hex char) SHA-256"
    );
    assert!(message("\u{fc}\u{fc}").contains("not valid hex"));
}

#[test]
fn a_pin_matches_only_its_certificate() {
    let a = Identity::generate().unwrap();
    let b = Identity::generate().unwrap();
    let pin = parse_pin(&a.fingerprint()).unwrap();
    assert!(pin_matches(a.cert_der(), &pin));
    assert!(!pin_matches(b.cert_der(), &pin));
    assert_eq!(digest_of(a.cert_der()), pin);
    assert_ne!(a.key_der(), b.key_der());
}

#[test]
fn certificates_are_made_out_to_the_sni() {
    let id = Identity::generate().unwrap();
    let mut entry = vec![0x82u8, 14];
    entry.extend_from_slice(b"atp-experiment");
    assert!(id.cert_der().windows(entry.len()).any(|w| w == &entry[..]));
    assert!(!id.key_der().is_empty());
}

#[test]
fn generation_that_fails_is_reported() {
    let made = Identity::from_generated(Err("no entropy".to_string()));
    assert_eq!(
        made.err().expect("an error").message(),
        "transfer failed: certificate generation failed: no entropy"
    );
    let id = Identity::from_generated(Ok((b"abc".to_vec(), b"key".to_vec()))).unwrap();
    assert_eq!(
        id.fingerprint(),
        "ba7816bf8f01cfea414140de5dae2223b00361a396177a9cb410ff61f20015ad"
    );
    assert_eq!(id.key_der(), b"key");
}

#[test]
fn known_digests() {
    assert_eq!(
        sha256_hex(b""),
        "e3b0c44298fc1c149afbf4c8996fb92427ae41e4649b934ca495991b7852b855"
    );
    assert_eq!(
        sha256_hex(b"abc"),
        "ba7816bf8f01cfea414140de5dae2223b00361a396177a9cb410ff61f20015ad"
    );
    let d = digest_of(b"abc");
    assert_eq!(d[0], 0xba);
    assert_eq!(parse_pin(&sha256_hex(b"abc")).unwrap(), d);
}

#[test]
fn a_file_hashes_the_same_in_pieces() {
    let data: Vec<u8> = (0..10_000u32).map(|i| (i % 253) as u8).collect();
    let mut h = FileHasher::new();
    for piece in data.chunks(777) {
        h.update(piece);
    }
    assert_eq!(h.finish(), sha256_hex(&data));
    assert_eq!(FileHasher::new().finish(), sha256_hex(b""));
}

#[test]
fn names_on_the_wire() {
    assert_eq!(SEAL_EXPORTER_LABEL, "EXPORTER-atp-rq-sealed-v1-symbol-key");
    assert_eq!(SEAL_KEY_LEN, 32);
    assert_eq!(SNI, "atp-experiment");
}

#[test]
fn the_key_belongs_to_the_certificate() {
    let id = Identity::generate().unwrap();
    let other = Identity::generate().unwrap();
    let holds = |cert: &[u8], part: &[u8]| cert.windows(part.len()).any(|w| w == part);
    assert_eq!(id.key_der().len(), PKCS8_LEN);
    let public = &id.key_der()[PRIVATE_END + 5..];
    assert_eq!(public.len(), 65);
    assert_eq!(public[0], 4, "an uncompressed point");
    assert!(holds(id.cert_der(), public));
    assert!(!holds(other.cert_der(), public));
    assert_ne!(
        id.key_der()[PRIVATE_AT..PRIVATE_END],
        other.key_der()[PRIVATE_AT..PRIVATE_END]
    );
    // The preamble, and what stands between the private number and the rest.
    assert_eq!(
        id.key_der()[..PRIVATE_AT],
        [
            0x30, 0x81, 0x87, 0x02, 0x01, 0x00, 0x30, 0x13, 0x06, 0x07, 0x2a, 0x86, 0x48, 0xce,
            0x3d, 0x02, 0x01, 0x06, 0x08, 0x2a, 0x86, 0x48, 0xce, 0x3d, 0x03, 0x01, 0x07, 0x04,
            0x6d, 0x30, 0x6b, 0x02, 0x01, 0x01, 0x04, 0x20,
        ]
    );
    assert_eq!(id.key_der()[PRIVATE_END..PRIVATE_END + 5], [0xa1, 0x44, 0x03, 0x42, 0x00]);
}
