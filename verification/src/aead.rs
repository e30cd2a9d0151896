//! ChaCha20-Poly1305 on plain byte strings.
//!
//! The cipher itself is the `chacha20poly1305` crate's. Its two in-place
//! calls are declared here with what this library relies on; everything else
//! in the library is proved from these declarations.

use chacha20poly1305::{AeadInPlace, ChaCha20Poly1305, Key, KeyInit, Nonce, Tag};
use vstd::prelude::*;

verus! {

/// Key length in bytes.
pub const KEY_LEN: usize = 32;

/// Nonce length in bytes.
pub const NONCE_LEN: usize = 12;

/// Authentication tag length in bytes.
pub const TAG_LEN: usize = 16;

/// Ciphertext and tag that `encrypt_in_place_detached` leaves for `plain`
/// under `key`, `nonce` and the associated data `aad`.
pub uninterp spec fn aead_seal(
    key: Seq<u8>,
    nonce: Seq<u8>,
    aad: Seq<u8>,
    plain: Seq<u8>,
) -> (Seq<u8>, Seq<u8>);

/// Plaintext that `decrypt_in_place_detached` leaves for `cipher` and `tag`,
/// or `None` where it refuses them.
pub uninterp spec fn aead_open(
    key: Seq<u8>,
    nonce: Seq<u8>,
    aad: Seq<u8>,
    cipher: Seq<u8>,
    tag: Seq<u8>,
) -> Option<Seq<u8>>;

/// Messages of this many 64-byte blocks or more are refused: the block
/// counter has 32 bits.
pub open spec fn too_long(len: nat) -> bool {
    len / 64 >= 0xFFFF_FFFF
}

/// Lengths for which the key stream lasts. The crate lets a message with a
/// broken last block through one block too far, and its key stream then runs
/// out: those 63 lengths are left out here.
pub open spec fn stream_lasts(len: nat) -> bool {
    len / 64 != 0xFFFF_FFFE || len % 64 == 0
}

/// Calls `ChaCha20Poly1305::encrypt_in_place_detached`.
///
/// Claimed of it: it refuses exactly the messages that are too long, leaving
/// them as they were. Otherwise the body becomes the ciphertext, which has
/// the message's length, and the returned tag goes with it; both depend on
/// the key, the nonce, the associated data and the message alone. Decrypting
/// that ciphertext with that tag gives the message back: both directions
/// apply the same key stream, and the tag is recomputed the same way.
#[verifier::external_body]
pub(crate) fn encrypt_in_place(
    key: &[u8; KEY_LEN],
    nonce: &[u8; NONCE_LEN],
    aad: &[u8],
    body: &mut [u8],
) -> (r: Result<[u8; TAG_LEN], ()>)
    requires
        stream_lasts(old(body)@.len()),
    ensures
        r is Err <==> too_long(old(body)@.len()),
        r is Err ==> final(body)@ == old(body)@,
        final(body)@.len() == old(body)@.len(),
        r matches Ok(tag) ==> (final(body)@, tag@) == aead_seal(key@, nonce@, aad@, old(body)@),
        r matches Ok(tag) ==> aead_open(key@, nonce@, aad@, final(body)@, tag@) == Some(old(body)@),
{
    let cipher = ChaCha20Poly1305::new(Key::from_slice(key));
    cipher
        .encrypt_in_place_detached(Nonce::from_slice(nonce), aad, body)
        .map(|tag| tag.into())
        .map_err(|_| ())
}

/// Calls `ChaCha20Poly1305::decrypt_in_place_detached`.
///
/// Claimed of it: whether it accepts, and the plaintext it then leaves in the
/// body, depend on the key, the nonce, the associated data, the ciphertext
/// and the tag alone; the plaintext has the ciphertext's length. It checks
/// the tag before it decrypts, so a refused body is left as it was.
#[verifier::external_body]
pub(crate) fn decrypt_in_place(
    key: &[u8; KEY_LEN],
    nonce: &[u8; NONCE_LEN],
    aad: &[u8],
    body: &mut [u8],
    tag: &[u8; TAG_LEN],
) -> (r: Result<(), ()>)
    requires
        stream_lasts(old(body)@.len()),
    ensures
        r is Ok <==> aead_open(key@, nonce@, aad@, old(body)@, tag@) is Some,
        r is Ok ==> aead_open(key@, nonce@, aad@, old(body)@, tag@) == Some(final(body)@),
        r is Err ==> final(body)@ == old(body)@,
        final(body)@.len() == old(body)@.len(),
{
    let cipher = ChaCha20Poly1305::new(Key::from_slice(key));
    cipher
        .decrypt_in_place_detached(Nonce::from_slice(nonce), aad, body, Tag::from_slice(tag))
        .map_err(|_| ())
}

/// A message is refused exactly from 64 times 2 to the 32nd, less one block, on;
/// short of that the key stream lasts but for the 63 lengths of a broken last
/// block.
pub proof fn law_what_the_cipher_takes(len: nat)
    ensures
        too_long(len) <==> len >= 64 * 0xFFFF_FFFF,
        stream_lasts(len) <==> len <= 64 * 0xFFFF_FFFE || len >= 64 * 0xFFFF_FFFF,
{
}

} // verus!
