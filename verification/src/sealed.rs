//! Sealed datagrams: one authenticated encryption per datagram.
//!
//! Datagrams are fire-and-forget, so each one is sealed on its own under a
//! key that both peers derive from their TLS session. An explicit 64-bit
//! sequence number makes the nonce and is checked against an anti-replay
//! window. Wire layout; the clear header is the associated data:
//!
//! ```text
//! magic "ATRS" (4) | transfer_tag (8, LE) | seq (8, LE)   header
//! block_index (4, LE) | encoding packet                   encrypted body
//! Poly1305 tag (16)
//! ```
//!
//! A datagram with a bad magic, a wrong transfer tag, a replayed sequence
//! number or a forged body is dropped before it changes anything.

use vstd::prelude::*;
use vstd::slice::slice_subrange;
use crate::aead::{aead_open, aead_seal, decrypt_in_place, encrypt_in_place, stream_lasts, too_long};
use crate::aead::{KEY_LEN, NONCE_LEN, TAG_LEN};
use crate::codec::{be_bytes, le_bytes, le_value, lemma_byte_range, lemma_le_len};
use crate::codec::{law_bytes_count_by_their_places, law_numbers_are_written_and_read};
use crate::codec::{lemma_le_round_trip, lemma_le_value_bytes};
use crate::codec::{push_bytes, push_u32_le, push_u64_le, read_u32_le, read_u64_le};
use crate::error::Error;
use crate::replay::{law_left_behind_for_good, law_no_second_delivery, ReplayWindow, WindowView};
use crate::replay::REPLAY_WINDOW_BITS;

verus! {

/// Sealed datagram wire magic, "ATRS".
pub const MAGIC: [u8; 4] = [0x41, 0x54, 0x52, 0x53];

/// Clear-header length (magic, transfer tag, sequence number).
pub const HEADER_LEN: usize = 20;

/// Bytes per datagram beyond the encrypted body.
pub const OVERHEAD: usize = 36;

/// The nonce of sequence number `seq`.
pub open spec fn nonce_of(seq: u64) -> Seq<u8> {
    seq![0u8, 0u8, 0u8, 0u8] + be_bytes(seq as nat, 8)
}

/// The clear header, which is also the associated data.
pub open spec fn header(transfer_tag: u64, seq: u64) -> Seq<u8> {
    MAGIC@ + le_bytes(transfer_tag as nat, 8) + le_bytes(seq as nat, 8)
}

/// The body before encryption.
pub open spec fn plain_body(block_index: u32, payload: Seq<u8>) -> Seq<u8> {
    le_bytes(block_index as nat, 4) + payload
}

/// The sealed datagram.
pub open spec fn sealed_wire(
    key: Seq<u8>,
    transfer_tag: u64,
    seq: u64,
    block_index: u32,
    payload: Seq<u8>,
) -> Seq<u8> {
    let h = header(transfer_tag, seq);
    let (cipher, tag) = aead_seal(key, nonce_of(seq), h, plain_body(block_index, payload));
    h + cipher + tag
}

/// `wire` is a header, a ciphertext and a tag that the cipher accepts under
/// `key` as this block index and payload. Sealing gives such a datagram.
pub open spec fn authentic(
    key: Seq<u8>,
    transfer_tag: u64,
    seq: u64,
    block_index: u32,
    payload: Seq<u8>,
    wire: Seq<u8>,
) -> bool {
    let n = wire.len() as int;
    &&& n == OVERHEAD + 4 + payload.len()
    &&& wire.subrange(0, HEADER_LEN as int) == header(transfer_tag, seq)
    &&& aead_open(
        key,
        nonce_of(seq),
        wire.subrange(0, HEADER_LEN as int),
        wire.subrange(HEADER_LEN as int, n - TAG_LEN),
        wire.subrange(n - TAG_LEN, n),
    ) == Some(plain_body(block_index, payload))
}

/// The nonce of sequence number `seq`: four zero bytes, then the number,
/// most significant byte first.
pub fn seq_nonce(seq: u64) -> (n: [u8; NONCE_LEN])
    ensures
        n@ == nonce_of(seq),
{
    let r1: u64 = seq / 256;
    let r2: u64 = r1 / 256;
    let r3: u64 = r2 / 256;
    let r4: u64 = r3 / 256;
    let r5: u64 = r4 / 256;
    let r6: u64 = r5 / 256;
    let r7: u64 = r6 / 256;
    let n: [u8; NONCE_LEN] = [
        0,
        0,
        0,
        0,
        (r7 % 256) as u8,
        (r6 % 256) as u8,
        (r5 % 256) as u8,
        (r4 % 256) as u8,
        (r3 % 256) as u8,
        (r2 % 256) as u8,
        (r1 % 256) as u8,
        (seq % 256) as u8,
    ];
    proof {
        reveal_with_fuel(le_bytes, 9);
        assert(n@ =~= nonce_of(seq));
    }
    n
}

/// Sender-side sealer of one transfer session: the key and the number of the
/// next datagram.
pub struct SymbolSealer {
    key: [u8; KEY_LEN],
    seq: u64,
}

impl SymbolSealer {
    /// The session key.
    pub closed spec fn key(self) -> Seq<u8> {
        self.key@
    }

    /// The number that the next datagram gets.
    pub closed spec fn seq(self) -> u64 {
        self.seq
    }

    /// A sealer for this key, numbering from zero.
    pub fn new(key: &[u8; KEY_LEN]) -> (s: Self)
        ensures
            s.key() == key@,
            s.seq() == 0,
    {
        SymbolSealer { key: *key, seq: 0 }
    }

    /// Allocate the next datagram sequence number.
    ///
    /// The counter wraps after 2^64 numbers, which no session reaches.
    pub fn next_seq(&mut self) -> (seq: u64)
        ensures
            seq == old(self).seq(),
            final(self).key() == old(self).key(),
            final(self).seq() == if old(self).seq() == u64::MAX {
                0
            } else {
                (old(self).seq() + 1) as u64
            },
    {
        let seq: u64 = self.seq;
        self.seq = seq.wrapping_add(1);
        seq
    }

    /// Encrypt `body` in place under `seq`, with `aad` as associated data,
    /// and return the tag to append.
    pub fn seal_in_place(&self, seq: u64, aad: &[u8], body: &mut [u8]) -> (r: Result<
        [u8; TAG_LEN],
        Error,
    >)
        requires
            stream_lasts(old(body)@.len()),
        ensures
            r is Err <==> too_long(old(body)@.len()),
            r matches Err(e) ==> {
                &&& final(body)@ == old(body)@
                &&& e matches Error::Io(m)
                &&& m@ == "sealed transport: AEAD seal failed"@
            },
            r matches Ok(tag) ==> {
                &&& (final(body)@, tag@) == aead_seal(self.key(), nonce_of(seq), aad@, old(body)@)
                &&& aead_open(self.key(), nonce_of(seq), aad@, final(body)@, tag@) == Some(
                    old(body)@,
                )
            },
            final(body)@.len() == old(body)@.len(),
    {
        let nonce: [u8; NONCE_LEN] = seq_nonce(seq);
        match encrypt_in_place(&self.key, &nonce, aad, body) {
            Ok(tag) => Ok(tag),
            Err(_) => Err(Error::Io("sealed transport: AEAD seal failed".to_owned())),
        }
    }
}

/// Why an inbound sealed datagram was rejected.
#[derive(Debug, Clone, Copy, PartialEq, Eq, Structural)]
pub enum SymbolOpenError {
    /// The sequence number is a replay or fell behind the anti-replay window.
    Replay,
    /// Authentication failed (forged, corrupted, or wrong key).
    BadTag,
}

/// What a receiver with this key and window says of a sequence number, a
/// header, a body and a tag: the plaintext, or why it refuses.
pub open spec fn verdict(
    key: Seq<u8>,
    window: WindowView,
    seq: u64,
    aad: Seq<u8>,
    body: Seq<u8>,
    tag: Seq<u8>,
) -> Result<Seq<u8>, SymbolOpenError> {
    if tag.len() != TAG_LEN {
        Err(SymbolOpenError::BadTag)
    } else if !window.accepts(seq) {
        Err(SymbolOpenError::Replay)
    } else {
        match aead_open(key, nonce_of(seq), aad, body, tag) {
            None => Err(SymbolOpenError::BadTag),
            Some(plain) => Ok(plain),
        }
    }
}

/// The sequence number field of a datagram.
pub open spec fn wire_seq(buf: Seq<u8>) -> u64 {
    le_value(buf.subrange(12, 20)) as u64
}

/// The cipher can be asked about a datagram, if it has to be: that is for one
/// with the right magic and transfer tag and a number that the window takes.
pub open spec fn openable(window: WindowView, transfer_tag: u64, buf: Seq<u8>) -> bool {
    buf.len() >= OVERHEAD + 4 && buf.subrange(0, 4) == MAGIC@ && le_value(buf.subrange(4, 12))
        == transfer_tag && window.accepts(wire_seq(buf)) ==> stream_lasts(
        (buf.len() - OVERHEAD) as nat,
    )
}

/// What a receiver with this key and window makes of a datagram: the block
/// index and the payload, or nothing.
pub open spec fn open_wire(
    key: Seq<u8>,
    window: WindowView,
    transfer_tag: u64,
    buf: Seq<u8>,
) -> Option<(u32, Seq<u8>)> {
    let n = buf.len() as int;
    if n < OVERHEAD + 4 || buf.subrange(0, 4) != MAGIC@ || le_value(buf.subrange(4, 12))
        != transfer_tag {
        None
    } else {
        match verdict(
            key,
            window,
            wire_seq(buf),
            buf.subrange(0, HEADER_LEN as int),
            buf.subrange(HEADER_LEN as int, n - TAG_LEN),
            buf.subrange(n - TAG_LEN, n),
        ) {
            Err(_) => None,
            Ok(plain) => Some(
                (le_value(plain.subrange(0, 4)) as u32, plain.subrange(4, plain.len() as int)),
            ),
        }
    }
}

/// The window after a datagram: it moves only for one that was opened.
pub open spec fn window_after(
    key: Seq<u8>,
    window: WindowView,
    transfer_tag: u64,
    buf: Seq<u8>,
) -> WindowView {
    if open_wire(key, window, transfer_tag, buf) is Some {
        window.commit(wire_seq(buf))
    } else {
        window
    }
}

/// The receive buffer after a datagram: one that was opened holds its body in
/// the clear between its header and its tag, any other is as it came.
pub open spec fn buffer_after(
    key: Seq<u8>,
    window: WindowView,
    transfer_tag: u64,
    buf: Seq<u8>,
) -> Seq<u8> {
    let n = buf.len() as int;
    match open_wire(key, window, transfer_tag, buf) {
        None => buf,
        Some((b, p)) => buf.subrange(0, HEADER_LEN as int) + plain_body(b, p) + buf.subrange(
            n - TAG_LEN,
            n,
        ),
    }
}

/// Receiver-side opener: the key and the anti-replay window.
pub struct SymbolOpener {
    key: [u8; KEY_LEN],
    window: ReplayWindow,
}

impl SymbolOpener {
    /// The session key.
    pub closed spec fn key(self) -> Seq<u8> {
        self.key@
    }

    /// What was delivered so far.
    pub closed spec fn window(self) -> WindowView {
        self.window@
    }

    /// An opener for this key that has seen nothing.
    pub fn new(key: &[u8; KEY_LEN]) -> (o: Self)
        ensures
            o.key() == key@,
            o.window() == WindowView::empty(),
    {
        SymbolOpener { key: *key, window: ReplayWindow::new() }
    }

    /// Verify and decrypt `body` in place. The window moves only after
    /// authentication, so forged sequence numbers cannot poison it.
    pub fn open_in_place(&mut self, seq: u64, aad: &[u8], body: &mut [u8], tag: &[u8]) -> (r: Result<
        (),
        SymbolOpenError,
    >)
        requires
            tag@.len() == TAG_LEN && old(self).window().accepts(seq) ==> stream_lasts(
                old(body)@.len(),
            ),
        ensures
            final(self).key() == old(self).key(),
            final(body)@.len() == old(body)@.len(),
            match verdict(old(self).key(), old(self).window(), seq, aad@, old(body)@, tag@) {
                Ok(plain) => {
                    &&& r is Ok
                    &&& final(body)@ == plain
                    &&& final(self).window() == old(self).window().commit(seq)
                },
                Err(why) => {
                    &&& r == Err::<(), SymbolOpenError>(why)
                    &&& final(body)@ == old(body)@
                    &&& final(self).window() == old(self).window()
                },
            },
    {
        if tag.len() != TAG_LEN {
            return Err(SymbolOpenError::BadTag);
        }
        if !self.window.would_accept(seq) {
            return Err(SymbolOpenError::Replay);
        }
        let nonce: [u8; NONCE_LEN] = seq_nonce(seq);
        let fixed: [u8; TAG_LEN] = tag_array(tag);
        if decrypt_in_place(&self.key, &nonce, aad, body, &fixed).is_err() {
            return Err(SymbolOpenError::BadTag);
        }
        self.window.commit(seq);
        Ok(())
    }

    /// The sequence numbers that the sender has used so far, as seen from
    /// here: the highest accepted, plus one. Loss is `1 - accepted / span`.
    pub fn seq_span(&self) -> (r: Option<u64>)
        requires
            self.window().highest != Some(u64::MAX),
        ensures
            r == match self.window().highest {
                None => None::<u64>,
                Some(h) => Some((h + 1) as u64),
            },
    {
        match self.window.highest_seq() {
            None => None,
            Some(h) => Some(h + 1),
        }
    }

    /// Whether the span still fits in 64 bits.
    pub fn span_fits(&self) -> (r: bool)
        ensures
            r == (self.window().highest != Some(u64::MAX)),
    {
        match self.window.highest_seq() {
            None => true,
            Some(h) => h != u64::MAX,
        }
    }
}

/// A 16-byte slice as an array.
fn tag_array(tag: &[u8]) -> (r: [u8; TAG_LEN])
    requires
        tag@.len() == TAG_LEN,
    ensures
        r@ == tag@,
{
    let mut r: [u8; TAG_LEN] = [0u8; TAG_LEN];
    let mut i: usize = 0;
    while i < TAG_LEN
        invariant
            i <= TAG_LEN,
            tag@.len() == TAG_LEN,
            forall|j: int| 0 <= j < i ==> r@[j] == tag@[j],
        decreases TAG_LEN - i,
    {
        r[i] = tag[i];
        i = i + 1;
    }
    assert(r@ =~= tag@);
    r
}

/// Seal one datagram into a fresh buffer.
pub fn seal_datagram(
    sealer: &mut SymbolSealer,
    transfer_tag: u64,
    block_index: u32,
    payload: &[u8],
) -> (r: Result<Vec<u8>, Error>)
    requires
        stream_lasts(payload@.len() + 4),
    ensures
        final(sealer).key() == old(sealer).key(),
        final(sealer).seq() == if old(sealer).seq() == u64::MAX {
            0
        } else {
            (old(sealer).seq() + 1) as u64
        },
        r is Err <==> too_long(payload@.len() + 4),
        r matches Ok(wire) ==> {
            &&& wire@ == sealed_wire(
                old(sealer).key(),
                transfer_tag,
                old(sealer).seq(),
                block_index,
                payload@,
            )
            &&& authentic(
                old(sealer).key(),
                transfer_tag,
                old(sealer).seq(),
                block_index,
                payload@,
                wire@,
            )
        },
        r matches Err(e) ==> (e matches Error::Io(m) && m@
            == "sealed transport: AEAD seal failed"@),
{
    let mut buf: Vec<u8> = Vec::new();
    match seal_datagram_into(sealer, transfer_tag, block_index, payload, &mut buf) {
        Ok(()) => {
            assert(buf@ =~= buf@.subrange(0, buf@.len() as int));
            Ok(buf)
        },
        Err(e) => Err(e),
    }
}

/// Seal one datagram appended to `out`: encryption runs in place inside the
/// batch buffer. Where the cipher refuses the body, `out` keeps the header
/// and the body as they were before encryption.
pub fn seal_datagram_into(
    sealer: &mut SymbolSealer,
    transfer_tag: u64,
    block_index: u32,
    payload: &[u8],
    out: &mut Vec<u8>,
) -> (r: Result<(), Error>)
    requires
        stream_lasts(payload@.len() + 4),
    ensures
        final(sealer).key() == old(sealer).key(),
        final(sealer).seq() == if old(sealer).seq() == u64::MAX {
            0
        } else {
            (old(sealer).seq() + 1) as u64
        },
        r is Err <==> too_long(payload@.len() + 4),
        r is Ok ==> {
            &&& final(out)@ == old(out)@ + sealed_wire(
                old(sealer).key(),
                transfer_tag,
                old(sealer).seq(),
                block_index,
                payload@,
            )
            &&& authentic(
                old(sealer).key(),
                transfer_tag,
                old(sealer).seq(),
                block_index,
                payload@,
                final(out)@.subrange(old(out)@.len() as int, final(out)@.len() as int),
            )
        },
        r matches Err(e) ==> {
            &&& final(out)@ == old(out)@ + header(transfer_tag, old(sealer).seq()) + plain_body(
                block_index,
                payload@,
            )
            &&& e matches Error::Io(m)
            &&& m@ == "sealed transport: AEAD seal failed"@
        },
{
    let seq: u64 = sealer.next_seq();
    let start: usize = out.len();
    let ghost before = out@;
    push_bytes(out, &MAGIC);
    push_u64_le(out, transfer_tag);
    push_u64_le(out, seq);
    push_u32_le(out, block_index);
    push_bytes(out, payload);
    let ghost h = header(transfer_tag, seq);
    let ghost plain = plain_body(block_index, payload@);
    proof {
        lemma_le_len(transfer_tag as nat, 8);
        lemma_le_len(seq as nat, 8);
        lemma_le_len(block_index as nat, 4);
        assert(out@ =~= before + h + plain);
        assert(h.len() == 20);
    }
    let (_, rest) = out.as_mut_slice().split_at_mut(start);
    let (aad, body) = rest.split_at_mut(HEADER_LEN);
    assert(aad@ =~= h);
    assert(body@ =~= plain);
    let r = sealer.seal_in_place(seq, aad, body);
    match r {
        Err(e) => {
            assert(out@ =~= before + h + plain);
            Err(e)
        },
        Ok(tag) => {
            let ghost cipher = aead_seal(sealer.key(), nonce_of(seq), h, plain).0;
            assert(out@ =~= before + h + cipher);
            push_bytes(out, &tag);
            proof {
                let wire = h + cipher + tag@;
                assert(out@ =~= before + wire);
                assert(out@.subrange(before.len() as int, out@.len() as int) =~= wire);
                assert(wire.subrange(0, HEADER_LEN as int) =~= h);
                assert(wire.subrange(HEADER_LEN as int, wire.len() - TAG_LEN) =~= cipher);
                assert(wire.subrange(wire.len() - TAG_LEN, wire.len() as int) =~= tag@);
            }
            Ok(())
        },
    }
}

/// Open one sealed datagram in place. Gives nothing (a silent drop) on bad
/// magic, wrong transfer tag, truncation, replay or failed authentication;
/// then neither the datagram nor the window has changed. Otherwise the buffer
/// holds the body in the clear between its header and its tag.
pub fn open_datagram<'a>(opener: &mut SymbolOpener, transfer_tag: u64, buf: &'a mut [u8]) -> (r:
    Option<(u32, &'a [u8])>)
    requires
        openable(old(opener).window(), transfer_tag, old(buf)@),
    ensures
        final(opener).key() == old(opener).key(),
        final(opener).window() == window_after(
            old(opener).key(),
            old(opener).window(),
            transfer_tag,
            old(buf)@,
        ),
        match open_wire(old(opener).key(), old(opener).window(), transfer_tag, old(buf)@) {
            None => r is None,
            Some((b, p)) => r matches Some((block_index, payload)) && block_index == b && payload@
                == p,
        },
        final(buf)@ == buffer_after(
            old(opener).key(),
            old(opener).window(),
            transfer_tag,
            old(buf)@,
        ),
{
    let n: usize = buf.len();
    let ghost wire = buf@;
    if n < OVERHEAD + 4 {
        return None;
    }
    if buf[0] != MAGIC[0] || buf[1] != MAGIC[1] || buf[2] != MAGIC[2] || buf[3] != MAGIC[3] {
        assert(wire.subrange(0, 4) != MAGIC@) by {
            if wire.subrange(0, 4) == MAGIC@ {
                assert(wire.subrange(0, 4)[0] == MAGIC@[0]);
                assert(wire.subrange(0, 4)[1] == MAGIC@[1]);
                assert(wire.subrange(0, 4)[2] == MAGIC@[2]);
                assert(wire.subrange(0, 4)[3] == MAGIC@[3]);
            }
        }
        return None;
    }
    assert(wire.subrange(0, 4) =~= MAGIC@);
    let wire_tag: u64 = read_u64_le(buf, 4);
    if wire_tag != transfer_tag {
        return None;
    }
    let seq: u64 = read_u64_le(buf, 12);
    let tag: [u8; TAG_LEN] = tag_array(slice_subrange(buf, n - TAG_LEN, n));
    let (front, _) = buf.split_at_mut(n - TAG_LEN);
    let (aad, body) = front.split_at_mut(HEADER_LEN);
    assert(aad@ =~= wire.subrange(0, HEADER_LEN as int));
    assert(body@ =~= wire.subrange(HEADER_LEN as int, n - TAG_LEN));
    match opener.open_in_place(seq, aad, body, &tag) {
        Err(_) => None,
        Ok(()) => {
            let block_index: u32 = read_u32_le(body, 0);
            let len: usize = body.len();
            proof {
                lemma_le_value_bytes(body@.subrange(0, 4));
                lemma_byte_range();
                assert(body@ =~= plain_body(block_index, body@.subrange(4, len as int)));
            }
            Some((block_index, slice_subrange(body, 4, len)))
        },
    }
}

/// Two different sequence numbers never share a nonce.
pub proof fn law_nonces_differ(a: u64, b: u64)
    requires
        a != b,
    ensures
        nonce_of(a) != nonce_of(b),
{
    if nonce_of(a) == nonce_of(b) {
        let x = le_bytes(a as nat, 8);
        let y = le_bytes(b as nat, 8);
        lemma_le_len(a as nat, 8);
        lemma_le_len(b as nat, 8);
        assert forall|i: int| 0 <= i < 8 implies x[i] == y[i] by {
            assert(nonce_of(a)[11 - i] == x[i]);
            assert(nonce_of(b)[11 - i] == y[i]);
        }
        assert(x =~= y);
        lemma_byte_range();
        lemma_le_round_trip(a as nat, 8);
        lemma_le_round_trip(b as nat, 8);
    }
}

/// A header carries the transfer tag and the sequence number.
proof fn lemma_header_fields(transfer_tag: u64, seq: u64, wire: Seq<u8>)
    requires
        wire.len() >= HEADER_LEN,
        wire.subrange(0, HEADER_LEN as int) == header(transfer_tag, seq),
    ensures
        wire.subrange(0, 4) == MAGIC@,
        le_value(wire.subrange(4, 12)) == transfer_tag,
        wire_seq(wire) == seq,
{
    let h = header(transfer_tag, seq);
    lemma_le_len(transfer_tag as nat, 8);
    lemma_le_len(seq as nat, 8);
    assert(wire.subrange(0, 4) =~= h.subrange(0, 4));
    assert(h.subrange(0, 4) =~= MAGIC@);
    assert(wire.subrange(4, 12) =~= h.subrange(4, 12));
    assert(h.subrange(4, 12) =~= le_bytes(transfer_tag as nat, 8));
    assert(wire.subrange(12, 20) =~= h.subrange(12, 20));
    assert(h.subrange(12, 20) =~= le_bytes(seq as nat, 8));
    lemma_byte_range();
    lemma_le_round_trip(transfer_tag as nat, 8);
    lemma_le_round_trip(seq as nat, 8);
}

/// A sealed datagram opens, under the same key and transfer tag, to the block
/// index and payload that went in, exactly when the window takes its number.
pub proof fn law_opens_what_was_sealed(
    key: Seq<u8>,
    window: WindowView,
    transfer_tag: u64,
    seq: u64,
    block_index: u32,
    payload: Seq<u8>,
    wire: Seq<u8>,
)
    requires
        authentic(key, transfer_tag, seq, block_index, payload, wire),
    ensures
        open_wire(key, window, transfer_tag, wire) == if window.accepts(seq) {
            Some((block_index, payload))
        } else {
            None
        },
        window_after(key, window, transfer_tag, wire) == if window.accepts(seq) {
            window.commit(seq)
        } else {
            window
        },
{
    lemma_header_fields(transfer_tag, seq, wire);
    let plain = plain_body(block_index, payload);
    lemma_le_len(block_index as nat, 4);
    assert(plain.subrange(0, 4) =~= le_bytes(block_index as nat, 4));
    assert(plain.subrange(4, plain.len() as int) =~= payload);
    lemma_byte_range();
    lemma_le_round_trip(block_index as nat, 4);
}

/// A sealed datagram of one transfer is dropped by a receiver of another.
pub proof fn law_other_transfer_is_dropped(
    key: Seq<u8>,
    window: WindowView,
    transfer_tag: u64,
    other_tag: u64,
    seq: u64,
    block_index: u32,
    payload: Seq<u8>,
    wire: Seq<u8>,
)
    requires
        authentic(key, transfer_tag, seq, block_index, payload, wire),
        other_tag != transfer_tag,
    ensures
        open_wire(key, window, other_tag, wire) is None,
{
    lemma_header_fields(transfer_tag, seq, wire);
}

/// Once a datagram was opened, no datagram with its sequence number is opened
/// again, whatever other numbers were delivered in between.
pub proof fn law_no_second_opening(
    key: Seq<u8>,
    window: WindowView,
    transfer_tag: u64,
    first: Seq<u8>,
    between: Seq<u64>,
    second: Seq<u8>,
)
    requires
        open_wire(key, window, transfer_tag, first) is Some,
        wire_seq(second) == wire_seq(first),
    ensures
        open_wire(
            key,
            window_after(key, window, transfer_tag, first).commit_all(between),
            transfer_tag,
            second,
        ) is None,
{
    law_no_second_delivery(window, wire_seq(first), between);
}

/// What an opener is asked: a sequence number, a header, a body and a tag.
pub struct OpenCall {
    pub seq: u64,
    pub aad: Seq<u8>,
    pub body: Seq<u8>,
    pub tag: Seq<u8>,
}

impl OpenCall {
    /// What a receiver with this key and window answers.
    pub open spec fn answer(self, key: Seq<u8>, window: WindowView) -> Result<
        Seq<u8>,
        SymbolOpenError,
    > {
        verdict(key, window, self.seq, self.aad, self.body, self.tag)
    }
}

/// The window after a run of calls: each that was answered with a plaintext
/// commits its number.
pub open spec fn window_after_calls(
    key: Seq<u8>,
    window: WindowView,
    calls: Seq<OpenCall>,
) -> WindowView
    decreases calls.len(),
{
    if calls.len() == 0 {
        window
    } else {
        let w = window_after_calls(key, window, calls.drop_last());
        if calls.last().answer(key, w) is Ok {
            w.commit(calls.last().seq)
        } else {
            w
        }
    }
}

/// The numbers that a run of calls accepts, in order.
pub open spec fn accepted_by(
    key: Seq<u8>,
    window: WindowView,
    calls: Seq<OpenCall>,
) -> Seq<u64>
    decreases calls.len(),
{
    if calls.len() == 0 {
        Seq::empty()
    } else {
        let before = accepted_by(key, window, calls.drop_last());
        if calls.last().answer(key, window_after_calls(key, window, calls.drop_last())) is Ok {
            before.push(calls.last().seq)
        } else {
            before
        }
    }
}

proof fn lemma_window_after_calls(key: Seq<u8>, window: WindowView, calls: Seq<OpenCall>)
    ensures
        window_after_calls(key, window, calls) == window.commit_all(
            accepted_by(key, window, calls),
        ),
    decreases calls.len(),
{
    if calls.len() > 0 {
        let front = calls.drop_last();
        lemma_window_after_calls(key, window, front);
        let before = accepted_by(key, window, front);
        assert(before.push(calls.last().seq).drop_last() =~= before);
    }
}

/// No number is accepted twice: once a call was answered with a plaintext,
/// every later call on the same opener with its number and a tag of the right
/// length is a replay, and so is every one whose number lies a window's width
/// or more below it, whatever the header and the body and whatever calls came
/// between.
pub proof fn law_replayed_and_stale_numbers_are_refused(
    key: Seq<u8>,
    window: WindowView,
    first: OpenCall,
    between: Seq<OpenCall>,
    later: OpenCall,
)
    requires
        first.answer(key, window) is Ok,
        later.seq == first.seq || (later.seq <= first.seq && first.seq - later.seq
            >= REPLAY_WINDOW_BITS),
        later.tag.len() == TAG_LEN,
    ensures
        later.answer(key, window_after_calls(key, window.commit(first.seq), between))
            == Err::<Seq<u8>, SymbolOpenError>(SymbolOpenError::Replay),
{
    lemma_window_after_calls(key, window.commit(first.seq), between);
    let seqs = accepted_by(key, window.commit(first.seq), between);
    if later.seq == first.seq {
        law_no_second_delivery(window, first.seq, seqs);
    } else {
        law_left_behind_for_good(window, first.seq, later.seq, seqs);
    }
}

/// A refused call leaves no trace: with it at the front of a run, the run
/// accepts the same numbers and leaves the same window, and with it the same
/// highest number, as without it, and every next call is answered as without
/// it. A forged number cannot advance or mark the window.
pub proof fn law_refused_calls_leave_no_trace(
    key: Seq<u8>,
    window: WindowView,
    refused: OpenCall,
    calls: Seq<OpenCall>,
)
    requires
        refused.answer(key, window) is Err,
    ensures
        window_after_calls(key, window, seq![refused] + calls) == window_after_calls(
            key,
            window,
            calls,
        ),
        accepted_by(key, window, seq![refused] + calls) == accepted_by(key, window, calls),
        forall|next: OpenCall| #[trigger]
            next.answer(key, window_after_calls(key, window, seq![refused] + calls))
                == next.answer(key, window_after_calls(key, window, calls)),
    decreases calls.len(),
{
    let all = seq![refused] + calls;
    if calls.len() == 0 {
        assert(all.drop_last() =~= calls);
        assert(window_after_calls(key, window, calls) == window);
    } else {
        law_refused_calls_leave_no_trace(key, window, refused, calls.drop_last());
        assert(all.drop_last() =~= seq![refused] + calls.drop_last());
    }
}

/// A nonce is twelve bytes: four zeros, then the sequence number, most
/// significant byte first.
pub proof fn law_a_nonce_byte_by_byte(seq: u64)
    ensures
        ({
            let n = nonce_of(seq);
            &&& n.len() == 12
            &&& n[0] == 0 && n[1] == 0 && n[2] == 0 && n[3] == 0
            &&& n[11] + 0x100 * n[10] + 0x1_0000 * n[9] + 0x100_0000 * n[8] + 0x1_0000_0000 * n[7]
                + 0x100_0000_0000 * n[6] + 0x1_0000_0000_0000 * n[5] + 0x100_0000_0000_0000 * n[4]
                == seq
        }),
{
    law_numbers_are_written_and_read(seq, 0);
    law_bytes_count_by_their_places(le_bytes(seq as nat, 8));
    let b = be_bytes(seq as nat, 8);
    let l = le_bytes(seq as nat, 8);
    assert(b[0] == l[7] && b[1] == l[6] && b[2] == l[5] && b[3] == l[4]);
    assert(b[4] == l[3] && b[5] == l[2] && b[6] == l[1] && b[7] == l[0]);
}

/// The header of a sealed datagram, byte by byte: "ATRS", then the transfer tag
/// and the sequence number, least significant byte first.
pub proof fn law_a_header_byte_by_byte(transfer_tag: u64, seq: u64)
    ensures
        ({
            let h = header(transfer_tag, seq);
            &&& h.len() == 20
            &&& h[0] == 0x41 && h[1] == 0x54 && h[2] == 0x52 && h[3] == 0x53
            &&& h[4] + 0x100 * h[5] + 0x1_0000 * h[6] + 0x100_0000 * h[7] + 0x1_0000_0000 * h[8]
                + 0x100_0000_0000 * h[9] + 0x1_0000_0000_0000 * h[10] + 0x100_0000_0000_0000
                * h[11] == transfer_tag
            &&& h[12] + 0x100 * h[13] + 0x1_0000 * h[14] + 0x100_0000 * h[15] + 0x1_0000_0000
                * h[16] + 0x100_0000_0000 * h[17] + 0x1_0000_0000_0000 * h[18]
                + 0x100_0000_0000_0000 * h[19] == seq
        }),
{
    law_numbers_are_written_and_read(transfer_tag, 0);
    law_numbers_are_written_and_read(seq, 0);
    law_bytes_count_by_their_places(le_bytes(transfer_tag as nat, 8));
    law_bytes_count_by_their_places(le_bytes(seq as nat, 8));
}

/// A sealed datagram is its header, what the cipher makes of the block index
/// and the payload under the number's nonce with the header as associated
/// data, and the cipher's tag.
pub proof fn law_a_sealed_datagram_is_header_cipher_tag(
    key: Seq<u8>,
    transfer_tag: u64,
    seq: u64,
    block_index: u32,
    payload: Seq<u8>,
    body: Seq<u8>,
)
    requires
        body.len() == 4 + payload.len(),
        body[0] + 0x100 * body[1] + 0x1_0000 * body[2] + 0x100_0000 * body[3] == block_index,
        body.subrange(4, body.len() as int) == payload,
    ensures
        ({
            let h = header(transfer_tag, seq);
            let sealed = aead_seal(key, nonce_of(seq), h, body);
            sealed_wire(key, transfer_tag, seq, block_index, payload) == h + sealed.0 + sealed.1
        }),
{
    let front = body.subrange(0, 4);
    law_bytes_count_by_their_places(front);
    lemma_le_value_bytes(front);
    assert(body =~= front + body.subrange(4, body.len() as int));
    assert(body =~= plain_body(block_index, payload));
}

/// What a call is answered: one with a tag of another length than 16 bytes is
/// a bad tag; then one whose number the window does not accept is a replay;
/// then the cipher decides, under the number's nonce, and its plaintext is the
/// answer, or the tag is bad.
pub proof fn law_the_window_comes_before_the_cipher(
    key: Seq<u8>,
    window: WindowView,
    seq: u64,
    aad: Seq<u8>,
    body: Seq<u8>,
    tag: Seq<u8>,
)
    ensures
        ({
            let v = verdict(key, window, seq, aad, body, tag);
            let opened = aead_open(key, nonce_of(seq), aad, body, tag);
            &&& v is Ok <==> tag.len() == 16 && window.accepts(seq) && opened is Some
            &&& v matches Ok(plain) ==> opened == Some(plain)
            &&& v == Err::<Seq<u8>, SymbolOpenError>(SymbolOpenError::Replay) <==> tag.len() == 16
                && !window.accepts(seq)
        }),
{
}

/// A receiver opens exactly the datagrams of its transfer whose number its
/// window accepts and whose body, under that number's nonce and with the
/// header as associated data, the cipher opens to a block index and payload.
/// The window then marks that number, and in the buffer only the body has
/// changed, to what it was sealed from; for any other datagram nothing changes.
pub proof fn law_only_authentic_datagrams_are_opened(
    key: Seq<u8>,
    window: WindowView,
    transfer_tag: u64,
    buf: Seq<u8>,
)
    ensures
        ({
            let n = buf.len() as int;
            let seq = wire_seq(buf);
            let opened = open_wire(key, window, transfer_tag, buf);
            let plain = aead_open(
                key,
                nonce_of(seq),
                buf.subrange(0, 20),
                buf.subrange(20, n - 16),
                buf.subrange(n - 16, n),
            );
            &&& opened is Some <==> {
                &&& n >= 40
                &&& buf.subrange(0, 20) == header(transfer_tag, seq)
                &&& window.accepts(seq)
                &&& plain is Some
            }
            &&& opened is Some ==> window_after(key, window, transfer_tag, buf) == window.commit(seq)
            &&& opened is None ==> window_after(key, window, transfer_tag, buf) == window
                && buffer_after(key, window, transfer_tag, buf) == buf
            &&& opened matches Some((b, p)) ==> {
                &&& plain->0.len() >= 4 ==> plain->0 == plain_body(b, p)
                &&& buffer_after(key, window, transfer_tag, buf) == buf.subrange(0, 20)
                    + plain_body(b, p) + buf.subrange(n - 16, n)
            }
        }),
{
    let n = buf.len() as int;
    let seq = wire_seq(buf);
    lemma_byte_range();
    if n >= 40 {
        lemma_le_value_bytes(buf.subrange(4, 12));
        lemma_le_value_bytes(buf.subrange(12, 20));
        let h = header(transfer_tag, seq);
        lemma_le_len(transfer_tag as nat, 8);
        lemma_le_len(seq as nat, 8);
        assert(buf.subrange(0, 20) =~= buf.subrange(0, 4) + buf.subrange(4, 12) + buf.subrange(
            12,
            20,
        ));
        if buf.subrange(0, 20) == h {
            lemma_header_fields(transfer_tag, seq, buf);
        }
        if buf.subrange(0, 4) == MAGIC@ && le_value(buf.subrange(4, 12)) == transfer_tag {
            assert(buf.subrange(0, 20) =~= h);
        }
        let plain = aead_open(
            key,
            nonce_of(seq),
            buf.subrange(0, 20),
            buf.subrange(20, n - 16),
            buf.subrange(n - 16, n),
        );
        if let Some(t) = plain {
            if t.len() >= 4 {
                lemma_le_value_bytes(t.subrange(0, 4));
                assert(t =~= t.subrange(0, 4) + t.subrange(4, t.len() as int));
            }
        }
    }
}

/// The number of a datagram is that of its bytes 12 to 19, least significant
/// first, and a body in the clear is the block index and the payload.
pub proof fn law_a_datagram_says_its_number(
    transfer_tag: u64,
    seq: u64,
    block_index: u32,
    payload: Seq<u8>,
    rest: Seq<u8>,
)
    ensures
        wire_seq(header(transfer_tag, seq) + rest) == seq,
        plain_body(block_index, payload).len() == 4 + payload.len(),
        plain_body(block_index, payload).subrange(4, 4 + payload.len() as int) == payload,
        ({
            let b = plain_body(block_index, payload);
            b[0] + 0x100 * b[1] + 0x1_0000 * b[2] + 0x100_0000 * b[3] == block_index
        }),
{
    let w = header(transfer_tag, seq) + rest;
    lemma_le_len(transfer_tag as nat, 8);
    lemma_le_len(seq as nat, 8);
    assert(w.subrange(0, HEADER_LEN as int) =~= header(transfer_tag, seq));
    lemma_header_fields(transfer_tag, seq, w);
    law_numbers_are_written_and_read(seq, block_index);
    law_bytes_count_by_their_places(le_bytes(block_index as nat, 4));
    let b = plain_body(block_index, payload);
    assert(b.subrange(4, 4 + payload.len() as int) =~= payload);
}

/// A datagram can be asked about unless the cipher would have to answer for one
/// of the lengths on which its key stream runs out.
pub proof fn law_every_other_datagram_is_openable(
    window: WindowView,
    transfer_tag: u64,
    buf: Seq<u8>,
)
    ensures
        buf.len() < 40 ==> openable(window, transfer_tag, buf),
        !window.accepts(wire_seq(buf)) ==> openable(window, transfer_tag, buf),
        buf.len() <= 65535 ==> openable(window, transfer_tag, buf),
{
}

} // verus!
