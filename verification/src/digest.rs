//! SHA-256 digests and their hexadecimal text.

use sha2::{Digest, Sha256};
use vstd::prelude::*;

verus! {

/// Digest length in bytes.
pub const DIGEST_LEN: usize = 32;

/// First input length, in bytes, whose bit count does not fit in 64 bits.
pub const HASH_LIMIT: u64 = 0x2000_0000_0000_0000;

/// The crate's SHA-256 hasher.
#[verifier::external_type_specification]
#[verifier::external_body]
pub struct ExSha256(Sha256);

/// The crate's reason for refusing hexadecimal text.
#[verifier::external_type_specification]
#[verifier::external_body]
pub struct ExFromHexError(hex::FromHexError);

/// What a hasher holds: the bytes that it was fed.
pub uninterp spec fn hasher_input(h: Sha256) -> Seq<u8>;

/// The SHA-256 digest of `data`.
pub uninterp spec fn sha256(data: Seq<u8>) -> Seq<u8>;

/// Calls `Sha256::new`. Claimed of it: the hasher was fed nothing yet.
#[verifier::external_body]
fn hasher_new() -> (h: Sha256)
    ensures
        hasher_input(h) == Seq::<u8>::empty(),
{
    Sha256::new()
}

/// Calls `Sha256::update`. Claimed of it: the bytes go after those that the
/// hasher was fed before. Left out are inputs whose bit count does not fit in
/// 64 bits.
#[verifier::external_body]
fn hasher_update(h: &mut Sha256, data: &[u8])
    requires
        hasher_input(*old(h)).len() + data@.len() < HASH_LIMIT,
    ensures
        hasher_input(*final(h)) == hasher_input(*old(h)) + data@,
{
    h.update(data);
}

/// Calls `Sha256::finalize`. Claimed of it: the digest depends on the bytes
/// that the hasher was fed alone, not on how they were cut up. Left out are
/// inputs whose bit count does not fit in 64 bits.
#[verifier::external_body]
fn hasher_finish(h: Sha256) -> (r: [u8; DIGEST_LEN])
    requires
        hasher_input(h).len() < HASH_LIMIT,
    ensures
        r@ == sha256(hasher_input(h)),
{
    h.finalize().into()
}

/// The lower-case hexadecimal digit that stands for `d`.
pub open spec fn hex_digit(d: nat) -> char {
    if d < 10 {
        (48 + d) as char
    } else {
        (87 + d) as char
    }
}

/// `bytes` in lower-case hexadecimal, two digits for each.
pub open spec fn hex_text(bytes: Seq<u8>) -> Seq<char> {
    Seq::new(
        2 * bytes.len(),
        |i: int|
            if i % 2 == 0 {
                hex_digit(bytes[i / 2] as nat / 16)
            } else {
                hex_digit(bytes[i / 2] as nat % 16)
            },
    )
}

/// What a hexadecimal digit of either case stands for.
pub open spec fn hex_value(c: char) -> Option<u8> {
    if '0' <= c <= '9' {
        Some((c as int - 48) as u8)
    } else if 'a' <= c <= 'f' {
        Some((c as int - 87) as u8)
    } else if 'A' <= c <= 'F' {
        Some((c as int - 55) as u8)
    } else {
        None
    }
}

/// `s` is hexadecimal digits, in pairs.
pub open spec fn is_hex(s: Seq<char>) -> bool {
    &&& s.len() % 2 == 0
    &&& forall|i: int| 0 <= i < s.len() ==> hex_value(#[trigger] s[i]) is Some
}

/// The bytes that hexadecimal text stands for.
pub open spec fn hex_bytes(s: Seq<char>) -> Seq<u8> {
    Seq::new(
        s.len() / 2,
        |i: int| (16 * hex_value(s[2 * i])->0 + hex_value(s[2 * i + 1])->0) as u8,
    )
}

/// Calls `hex::encode`. Claimed of it: each byte gives two lower-case digits,
/// the high one first.
#[verifier::external_body]
fn hex_encode(bytes: &[u8; DIGEST_LEN]) -> (r: String)
    ensures
        r@ == hex_text(bytes@),
{
    hex::encode(bytes)
}

/// Calls `hex::decode`. Claimed of it: it takes exactly the texts of an even
/// number of hexadecimal digits, of either case, and gives a byte for each
/// pair.
#[verifier::external_body]
pub(crate) fn hex_decode(s: &str) -> (r: Result<Vec<u8>, hex::FromHexError>)
    ensures
        r is Ok <==> is_hex(s@),
        r matches Ok(v) ==> v@ == hex_bytes(s@),
{
    hex::decode(s)
}

/// The SHA-256 digest of `data`.
pub fn digest_of(data: &[u8]) -> (r: [u8; DIGEST_LEN])
    requires
        data@.len() < HASH_LIMIT,
    ensures
        r@ == sha256(data@),
{
    let mut h = hasher_new();
    hasher_update(&mut h, data);
    assert(Seq::<u8>::empty() + data@ =~= data@);
    hasher_finish(h)
}

/// The SHA-256 digest of `data` in hexadecimal.
pub fn sha256_hex(data: &[u8]) -> (r: String)
    requires
        data@.len() < HASH_LIMIT,
    ensures
        r@ == hex_text(sha256(data@)),
{
    let d: [u8; DIGEST_LEN] = digest_of(data);
    hex_encode(&d)
}

/// SHA-256 of a file that is read piece by piece.
pub struct FileHasher {
    hasher: Sha256,
}

impl FileHasher {
    /// The bytes read so far.
    pub closed spec fn input(self) -> Seq<u8> {
        hasher_input(self.hasher)
    }

    /// A hasher that has read nothing.
    pub fn new() -> (h: Self)
        ensures
            h.input() == Seq::<u8>::empty(),
    {
        FileHasher { hasher: hasher_new() }
    }

    /// Read the next piece.
    pub fn update(&mut self, piece: &[u8])
        requires
            old(self).input().len() + piece@.len() < HASH_LIMIT,
        ensures
            final(self).input() == old(self).input() + piece@,
    {
        hasher_update(&mut self.hasher, piece);
    }

    /// The digest of all pieces in hexadecimal.
    pub fn finish(self) -> (r: String)
        requires
            self.input().len() < HASH_LIMIT,
        ensures
            r@ == hex_text(sha256(self.input())),
    {
        let d: [u8; DIGEST_LEN] = hasher_finish(self.hasher);
        hex_encode(&d)
    }
}

/// Hexadecimal text of bytes is read back as those bytes.
pub proof fn law_hex_round_trip(bytes: Seq<u8>)
    ensures
        is_hex(hex_text(bytes)),
        hex_bytes(hex_text(bytes)) == bytes,
{
    let t = hex_text(bytes);
    assert forall|i: int| 0 <= i < t.len() implies hex_value(#[trigger] t[i]) is Some by {
        lemma_digit(bytes[i / 2] as nat / 16);
        lemma_digit(bytes[i / 2] as nat % 16);
    }
    assert forall|i: int| 0 <= i < bytes.len() implies hex_bytes(t)[i] == bytes[i] by {
        let b = bytes[i] as nat;
        assert((2 * i) / 2 == i && (2 * i) % 2 == 0);
        assert((2 * i + 1) / 2 == i && (2 * i + 1) % 2 == 1);
        assert(t[2 * i] == hex_digit(b / 16));
        assert(t[2 * i + 1] == hex_digit(b % 16));
        lemma_digit(b / 16);
        lemma_digit(b % 16);
    }
    assert(hex_bytes(t) =~= bytes);
}

proof fn lemma_digit(d: nat)
    requires
        d < 16,
    ensures
        hex_value(hex_digit(d)) == Some(d as u8),
        hex_digit(d) != ':',
        hex_digit(d) as int > 32,
{
}

/// The hexadecimal text of bytes has no colon and no white space.
pub proof fn lemma_hex_has_no_gap(bytes: Seq<u8>)
    ensures
        forall|i: int|
            0 <= i < hex_text(bytes).len() ==> (#[trigger] hex_text(bytes)[i]) != ':' && (48
                <= hex_text(bytes)[i] as int <= 102),
{
    let t = hex_text(bytes);
    assert forall|i: int| 0 <= i < t.len() implies (#[trigger] t[i]) != ':' && 48 <= t[i] as int
        <= 102 by {
        lemma_digit(bytes[i / 2] as nat / 16);
        lemma_digit(bytes[i / 2] as nat % 16);
    }
}

/// Hexadecimal text: two characters a byte, the high half first, in lower case;
/// read back, the case makes no difference, and no other character is a digit.
pub proof fn law_hexadecimal_digit_by_digit(bytes: Seq<u8>, i: int, c: char)
    requires
        0 <= i < bytes.len(),
    ensures
        ({
            let t = hex_text(bytes);
            &&& t.len() == 2 * bytes.len()
            &&& '0' <= t[2 * i] <= '9' || 'a' <= t[2 * i] <= 'f'
            &&& '0' <= t[2 * i + 1] <= '9' || 'a' <= t[2 * i + 1] <= 'f'
            &&& hex_value(t[2 * i]) == Some((bytes[i] / 16) as u8)
            &&& hex_value(t[2 * i + 1]) == Some((bytes[i] % 16) as u8)
        }),
        hex_value(c) is Some <==> '0' <= c <= '9' || 'a' <= c <= 'f' || 'A' <= c <= 'F',
        '0' <= c <= '9' ==> hex_value(c) == Some((c as int - '0' as int) as u8),
        'a' <= c <= 'f' ==> hex_value(c) == Some((c as int - 'a' as int + 10) as u8),
        'A' <= c <= 'F' ==> hex_value(c) == Some((c as int - 'A' as int + 10) as u8),
{
    assert((2 * i) / 2 == i && (2 * i) % 2 == 0);
    assert((2 * i + 1) / 2 == i && (2 * i + 1) % 2 == 1);
    lemma_digit(bytes[i] as nat / 16);
    lemma_digit(bytes[i] as nat % 16);
}

} // verus!
