//! Datagram formats of the symbol plane.
//!
//! Plaintext layout:
//!
//! ```text
//! magic "ATP2" (4) | transfer_tag (8, LE) | block_index (4, LE) | payload
//! ```
//!
//! The payload is a serialized RaptorQ encoding packet: a four-byte payload
//! id and the symbol. The sealed layout, which is the default, is in
//! [`crate::sealed`]; [`TxPlane`] and [`RxPlane`] pick between the two.

use vstd::prelude::*;
use vstd::slice::slice_subrange;
use crate::aead::{stream_lasts, too_long};
use crate::codec::{le_bytes, le_value, lemma_byte_range, lemma_le_len, lemma_le_round_trip};
use crate::codec::{law_bytes_count_by_their_places, law_numbers_are_written_and_read};
use crate::codec::lemma_le_value_bytes;
use crate::codec::{push_bytes, push_u32_le, push_u64_le, read_u32_le, read_u64_le};
use crate::error::Error;
use crate::replay::WindowView;
use crate::sealed;
use crate::sealed::{SymbolOpener, SymbolSealer};

verus! {

/// Wire magic for plaintext datagrams, "ATP2".
pub const MAGIC: [u8; 4] = [0x41, 0x54, 0x50, 0x32];

/// Clear-header length.
pub const HEADER_LEN: usize = 16;

/// A parsed datagram, borrowing the payload from the receive buffer.
#[derive(Debug)]
pub struct Datagram<'a> {
    pub block_index: u32,
    pub payload: &'a [u8],
}

/// The plaintext datagram.
pub open spec fn plain_wire(transfer_tag: u64, block_index: u32, payload: Seq<u8>) -> Seq<u8> {
    MAGIC@ + le_bytes(transfer_tag as nat, 8) + le_bytes(block_index as nat, 4) + payload
}

/// What a plaintext receiver makes of a datagram: the block index and the
/// payload, or nothing on bad magic, tag mismatch or truncation.
pub open spec fn parsed(transfer_tag: u64, buf: Seq<u8>) -> Option<(u32, Seq<u8>)> {
    if buf.len() < HEADER_LEN || buf.subrange(0, 4) != MAGIC@ || le_value(buf.subrange(4, 12))
        != transfer_tag {
        None
    } else {
        Some(
            (
                le_value(buf.subrange(12, 16)) as u32,
                buf.subrange(HEADER_LEN as int, buf.len() as int),
            ),
        )
    }
}

/// Encode a datagram into a fresh buffer.
pub fn encode(transfer_tag: u64, block_index: u32, payload: &[u8]) -> (wire: Vec<u8>)
    ensures
        wire@ == plain_wire(transfer_tag, block_index, payload@),
{
    let mut buf: Vec<u8> = Vec::new();
    encode_into(transfer_tag, block_index, payload, &mut buf);
    assert(buf@ =~= plain_wire(transfer_tag, block_index, payload@));
    buf
}

/// Encode a plaintext datagram appended to `out`.
pub fn encode_into(transfer_tag: u64, block_index: u32, payload: &[u8], out: &mut Vec<u8>)
    ensures
        final(out)@ == old(out)@ + plain_wire(transfer_tag, block_index, payload@),
{
    let ghost before = out@;
    push_bytes(out, &MAGIC);
    push_u64_le(out, transfer_tag);
    push_u32_le(out, block_index);
    push_bytes(out, payload);
    assert(out@ =~= before + plain_wire(transfer_tag, block_index, payload@));
}

/// Parse a datagram; gives `None` on bad magic, tag mismatch or truncation.
pub fn decode<'a>(transfer_tag: u64, buf: &'a [u8]) -> (r: Option<Datagram<'a>>)
    ensures
        match parsed(transfer_tag, buf@) {
            None => r is None,
            Some((b, p)) => r matches Some(dg) && dg.block_index == b && dg.payload@ == p,
        },
{
    let n: usize = buf.len();
    if n < HEADER_LEN {
        return None;
    }
    if buf[0] != MAGIC[0] || buf[1] != MAGIC[1] || buf[2] != MAGIC[2] || buf[3] != MAGIC[3] {
        assert(buf@.subrange(0, 4) != MAGIC@) by {
            if buf@.subrange(0, 4) == MAGIC@ {
                assert(buf@.subrange(0, 4)[0] == MAGIC@[0]);
                assert(buf@.subrange(0, 4)[1] == MAGIC@[1]);
                assert(buf@.subrange(0, 4)[2] == MAGIC@[2]);
                assert(buf@.subrange(0, 4)[3] == MAGIC@[3]);
            }
        }
        return None;
    }
    assert(buf@.subrange(0, 4) =~= MAGIC@);
    let tag: u64 = read_u64_le(buf, 4);
    if tag != transfer_tag {
        return None;
    }
    let block_index: u32 = read_u32_le(buf, 12);
    Some(Datagram { block_index, payload: slice_subrange(buf, HEADER_LEN, n) })
}

/// Sender-side datagram encoder: plaintext or sealed.
pub enum TxPlane {
    Plain,
    Sealed(SymbolSealer),
}

/// What an encoder stands for: nothing, or its key and next sequence number.
#[verifier::ext_equal]
pub enum TxView {
    Plain,
    Sealed { key: Seq<u8>, seq: u64 },
}

impl View for TxPlane {
    type V = TxView;

    open spec fn view(&self) -> TxView {
        match self {
            TxPlane::Plain => TxView::Plain,
            TxPlane::Sealed(s) => TxView::Sealed { key: s.key(), seq: s.seq() },
        }
    }
}

impl TxView {
    /// The cipher's key stream lasts for a payload of this length.
    pub open spec fn takes(self, payload_len: nat) -> bool {
        self is Sealed ==> stream_lasts(payload_len + 4)
    }

    /// A payload of this length is refused.
    pub open spec fn refuses(self, payload_len: nat) -> bool {
        self is Sealed && too_long(payload_len + 4)
    }

    /// The datagram that this plane makes next.
    pub open spec fn wire(self, transfer_tag: u64, block_index: u32, payload: Seq<u8>) -> Seq<u8> {
        match self {
            TxView::Plain => plain_wire(transfer_tag, block_index, payload),
            TxView::Sealed { key, seq } => sealed::sealed_wire(
                key,
                transfer_tag,
                seq,
                block_index,
                payload,
            ),
        }
    }

    /// What a refused payload leaves in a batch buffer: the header and the
    /// body in the clear.
    pub open spec fn left_over(
        self,
        transfer_tag: u64,
        block_index: u32,
        payload: Seq<u8>,
    ) -> Seq<u8> {
        match self {
            TxView::Plain => Seq::empty(),
            TxView::Sealed { key, seq } => sealed::header(transfer_tag, seq) + sealed::plain_body(
                block_index,
                payload,
            ),
        }
    }

    /// The datagram that this plane makes next is one that a holder of its
    /// key accepts.
    pub open spec fn authentic(
        self,
        transfer_tag: u64,
        block_index: u32,
        payload: Seq<u8>,
    ) -> bool {
        self matches TxView::Sealed { key, seq } ==> sealed::authentic(
            key,
            transfer_tag,
            seq,
            block_index,
            payload,
            self.wire(transfer_tag, block_index, payload),
        )
    }

    /// This plane after it used up a sequence number, if it has any.
    pub open spec fn next(self) -> TxView {
        match self {
            TxView::Plain => TxView::Plain,
            TxView::Sealed { key, seq } => TxView::Sealed {
                key,
                seq: if seq == u64::MAX {
                    0
                } else {
                    (seq + 1) as u64
                },
            },
        }
    }

    /// The length of a datagram with a payload of this length.
    pub open spec fn wire_len(self, payload_len: nat) -> nat {
        match self {
            TxView::Plain => HEADER_LEN as nat + payload_len,
            TxView::Sealed { .. } => sealed::OVERHEAD as nat + 4 + payload_len,
        }
    }
}

impl TxPlane {
    /// Encode one datagram into a fresh buffer.
    pub fn encode(&mut self, transfer_tag: u64, block_index: u32, payload: &[u8]) -> (r: Result<
        Vec<u8>,
        Error,
    >)
        requires
            old(self)@.takes(payload@.len()),
        ensures
            final(self)@ == old(self)@.next(),
            r is Err <==> old(self)@.refuses(payload@.len()),
            r matches Ok(wire) ==> {
                &&& wire@ == old(self)@.wire(transfer_tag, block_index, payload@)
                &&& old(self)@.authentic(transfer_tag, block_index, payload@)
                &&& wire@.len() == old(self)@.wire_len(payload@.len())
            },
            r matches Err(e) ==> (e matches Error::Io(m) && m@
                == "sealed transport: AEAD seal failed"@),
    {
        proof {
            lemma_le_len(transfer_tag as nat, 8);
            lemma_le_len(block_index as nat, 4);
        }
        match self {
            TxPlane::Plain => Ok(encode(transfer_tag, block_index, payload)),
            TxPlane::Sealed(sealer) => {
                sealed::seal_datagram(sealer, transfer_tag, block_index, payload)
            },
        }
    }

    /// Append one datagram to a batch buffer. Where the cipher refuses, the
    /// buffer keeps what was there and more bytes of no use after it.
    pub fn encode_into(
        &mut self,
        transfer_tag: u64,
        block_index: u32,
        payload: &[u8],
        out: &mut Vec<u8>,
    ) -> (r: Result<(), Error>)
        requires
            old(self)@.takes(payload@.len()),
        ensures
            final(self)@ == old(self)@.next(),
            r is Err <==> old(self)@.refuses(payload@.len()),
            r is Ok ==> {
                let wire = final(out)@.subrange(old(out)@.len() as int, final(out)@.len() as int);
                &&& final(out)@ == old(out)@ + wire
                &&& wire == old(self)@.wire(transfer_tag, block_index, payload@)
                &&& old(self)@.authentic(transfer_tag, block_index, payload@)
                &&& wire.len() == old(self)@.wire_len(payload@.len())
            },
            r matches Err(e) ==> {
                &&& final(out)@ == old(out)@ + old(self)@.left_over(
                    transfer_tag,
                    block_index,
                    payload@,
                )
                &&& e matches Error::Io(m)
                &&& m@ == "sealed transport: AEAD seal failed"@
            },
    {
        proof {
            lemma_le_len(transfer_tag as nat, 8);
            lemma_le_len(block_index as nat, 4);
        }
        let ghost before = out@;
        let ghost expected = self@.wire(transfer_tag, block_index, payload@);
        let ghost rest = self@.left_over(transfer_tag, block_index, payload@);
        match self {
            TxPlane::Plain => {
                encode_into(transfer_tag, block_index, payload, out);
                assert(out@.subrange(before.len() as int, out@.len() as int) =~= expected);
                Ok(())
            },
            TxPlane::Sealed(sealer) => {
                let r = sealed::seal_datagram_into(
                    sealer,
                    transfer_tag,
                    block_index,
                    payload,
                    out,
                );
                assert(r is Err ==> out@ =~= before + rest);
                assert(r is Ok ==> out@.subrange(before.len() as int, out@.len() as int)
                    =~= expected);
                r
            },
        }
    }

    /// On-the-wire datagram size for a given payload length.
    pub fn wire_len(&self, payload_len: usize) -> (n: usize)
        requires
            self@.wire_len(payload_len as nat) <= usize::MAX,
        ensures
            n == self@.wire_len(payload_len as nat),
    {
        match self {
            TxPlane::Plain => HEADER_LEN + payload_len,
            TxPlane::Sealed(_) => sealed::OVERHEAD + 4 + payload_len,
        }
    }

    /// Consume a sequence number without sending: a simulated network drop
    /// takes up sequence space on the receiver's side like a real one.
    pub fn burn_seq(&mut self)
        ensures
            final(self)@ == old(self)@.next(),
    {
        match self {
            TxPlane::Plain => {},
            TxPlane::Sealed(sealer) => {
                let _ = sealer.next_seq();
            },
        }
    }
}

/// Receiver-side datagram opener: plaintext or sealed. Whatever fails to
/// open is silently dropped.
pub enum RxPlane {
    Plain,
    // Boxed: the opener carries a 4096-bit replay window.
    Sealed(Box<SymbolOpener>),
}

/// What an opener stands for: nothing, or its key and anti-replay window.
#[verifier::ext_equal]
pub enum RxView {
    Plain,
    Sealed { key: Seq<u8>, window: WindowView },
}

impl View for RxPlane {
    type V = RxView;

    open spec fn view(&self) -> RxView {
        match self {
            RxPlane::Plain => RxView::Plain,
            RxPlane::Sealed(o) => RxView::Sealed { key: o.key(), window: o.window() },
        }
    }
}

impl RxView {
    /// The cipher, where it has to be asked about this datagram, can be asked.
    pub open spec fn takes(self, transfer_tag: u64, buf: Seq<u8>) -> bool {
        self matches RxView::Sealed { key, window } ==> sealed::openable(window, transfer_tag, buf)
    }

    /// What the plane makes of a datagram.
    pub open spec fn opened(self, transfer_tag: u64, buf: Seq<u8>) -> Option<(u32, Seq<u8>)> {
        match self {
            RxView::Plain => parsed(transfer_tag, buf),
            RxView::Sealed { key, window } => sealed::open_wire(key, window, transfer_tag, buf),
        }
    }

    /// This plane after the datagram `buf`: only the anti-replay window of a
    /// sealed plane moves, and only if the datagram was opened.
    pub open spec fn after(self, transfer_tag: u64, buf: Seq<u8>) -> RxView {
        match self {
            RxView::Plain => RxView::Plain,
            RxView::Sealed { key, window } => RxView::Sealed {
                key,
                window: sealed::window_after(key, window, transfer_tag, buf),
            },
        }
    }

    /// The receive buffer after the datagram: a sealed plane decrypts in
    /// place what it opens.
    pub open spec fn buffer_after(self, transfer_tag: u64, buf: Seq<u8>) -> Seq<u8> {
        match self {
            RxView::Plain => buf,
            RxView::Sealed { key, window } => sealed::buffer_after(key, window, transfer_tag, buf),
        }
    }

    /// Highest sequence number accepted; a plaintext plane has none.
    pub open spec fn highest(self) -> Option<u64> {
        match self {
            RxView::Plain => None,
            RxView::Sealed { key, window } => window.highest,
        }
    }

    /// The sequence numbers that the sender has used so far, as seen from
    /// here.
    pub open spec fn span(self) -> Option<u64> {
        match self.highest() {
            None => None,
            Some(h) => Some((h + 1) as u64),
        }
    }
}

impl RxPlane {
    /// Open one datagram in place: verify, decrypt and check for replay on a
    /// sealed plane, parse on a plaintext one.
    pub fn open<'a>(&mut self, transfer_tag: u64, buf: &'a mut [u8]) -> (r: Option<
        (u32, &'a [u8]),
    >)
        requires
            old(self)@.takes(transfer_tag, old(buf)@),
        ensures
            final(self)@ == old(self)@.after(transfer_tag, old(buf)@),
            match old(self)@.opened(transfer_tag, old(buf)@) {
                None => r is None,
                Some((b, p)) => r matches Some((block_index, payload)) && block_index == b
                    && payload@ == p,
            },
            final(buf)@ == old(self)@.buffer_after(transfer_tag, old(buf)@),
    {
        match self {
            RxPlane::Plain => match decode(transfer_tag, buf) {
                None => None,
                Some(dg) => Some((dg.block_index, dg.payload)),
            },
            RxPlane::Sealed(opener) => sealed::open_datagram(opener, transfer_tag, buf),
        }
    }

    /// Sequence span for loss measurement (sealed planes only).
    pub fn seq_span(&self) -> (r: Option<u64>)
        requires
            self@.highest() != Some(u64::MAX),
        ensures
            r == self@.span(),
    {
        match self {
            RxPlane::Plain => None,
            RxPlane::Sealed(opener) => opener.seq_span(),
        }
    }

    /// Whether the span still fits in 64 bits.
    pub fn span_fits(&self) -> (r: bool)
        ensures
            r == (self@.highest() != Some(u64::MAX)),
    {
        match self {
            RxPlane::Plain => true,
            RxPlane::Sealed(opener) => opener.span_fits(),
        }
    }
}

/// A plaintext datagram parses back, under the same transfer tag, to the
/// block index and payload that went in, and under any other to nothing.
pub proof fn law_plain_round_trip(
    transfer_tag: u64,
    other_tag: u64,
    block_index: u32,
    payload: Seq<u8>,
)
    ensures
        parsed(transfer_tag, plain_wire(transfer_tag, block_index, payload)) == Some(
            (block_index, payload),
        ),
        other_tag != transfer_tag ==> parsed(
            other_tag,
            plain_wire(transfer_tag, block_index, payload),
        ) is None,
{
    let wire = plain_wire(transfer_tag, block_index, payload);
    lemma_le_len(transfer_tag as nat, 8);
    lemma_le_len(block_index as nat, 4);
    assert(wire.subrange(0, 4) =~= MAGIC@);
    assert(wire.subrange(4, 12) =~= le_bytes(transfer_tag as nat, 8));
    assert(wire.subrange(12, 16) =~= le_bytes(block_index as nat, 4));
    assert(wire.subrange(16, wire.len() as int) =~= payload);
    lemma_byte_range();
    lemma_le_round_trip(transfer_tag as nat, 8);
    lemma_le_round_trip(block_index as nat, 4);
}

/// A datagram that a plane encodes has the length that `wire_len` says: 16
/// bytes more than its payload in the clear, 40 more when sealed. Which
/// datagrams were encoded before makes no difference.
pub proof fn law_wire_len_is_the_datagrams_length(
    tx: TxView,
    transfer_tag: u64,
    block_index: u32,
    payload: Seq<u8>,
)
    requires
        tx.authentic(transfer_tag, block_index, payload),
    ensures
        tx.wire(transfer_tag, block_index, payload).len() == tx.wire_len(payload.len()),
        tx is Plain ==> tx.wire_len(payload.len()) == payload.len() + 16,
        tx is Sealed ==> tx.wire_len(payload.len()) == payload.len() + 40,
        tx.next().wire_len(payload.len()) == tx.wire_len(payload.len()),
{
    lemma_le_len(transfer_tag as nat, 8);
    lemma_le_len(block_index as nat, 4);
}

/// Sealing costs 24 bytes per datagram over the plaintext tier, whatever the
/// payload.
pub proof fn law_sealing_costs_24_bytes(plain: TxView, sealed: TxView, payload_len: nat)
    requires
        plain is Plain,
        sealed is Sealed,
    ensures
        sealed.wire_len(payload_len) == plain.wire_len(payload_len) + 24,
{
}

/// Both planes are plaintext, or both are sealed with one key.
pub open spec fn same_session(tx: TxView, rx: RxView) -> bool {
    match tx {
        TxView::Plain => rx is Plain,
        TxView::Sealed { key, seq } => rx matches RxView::Sealed { key: k, window } && k == key,
    }
}

/// Whatever arrived before: a datagram that one plane of a session encodes,
/// the other opens, if at all, to the block index and payload it was made of.
pub proof fn law_opens_only_to_what_was_encoded(
    tx: TxView,
    rx: RxView,
    transfer_tag: u64,
    block_index: u32,
    payload: Seq<u8>,
)
    requires
        same_session(tx, rx),
        tx.authentic(transfer_tag, block_index, payload),
    ensures
        rx.opened(transfer_tag, tx.wire(transfer_tag, block_index, payload)) matches Some(x)
            ==> x == (block_index, payload),
        same_session(
            tx.next(),
            rx.after(transfer_tag, tx.wire(transfer_tag, block_index, payload)),
        ),
{
    match tx {
        TxView::Plain => {
            law_plain_round_trip(transfer_tag, transfer_tag, block_index, payload);
        },
        TxView::Sealed { key, seq } => {
            if let RxView::Sealed { key: k, window } = rx {
                sealed::law_opens_what_was_sealed(
                    key,
                    window,
                    transfer_tag,
                    seq,
                    block_index,
                    payload,
                    tx.wire(transfer_tag, block_index, payload),
                );
            }
        },
    }
}

/// Two planes of one session: both plaintext, or both sealed with one key
/// and nothing delivered at or above the sender's next number.
pub open spec fn paired(tx: TxView, rx: RxView) -> bool {
    match tx {
        TxView::Plain => rx is Plain,
        TxView::Sealed { key, seq } => {
            &&& rx matches RxView::Sealed { key: k, window }
            &&& k == key
            &&& window.highest matches Some(h) ==> h < seq
        },
    }
}

/// A datagram that one plane of a session encodes, the other opens to the
/// same block index and payload. Whether it arrives or is lost, the planes
/// stay those of one session.
pub proof fn law_plane_round_trip(
    tx: TxView,
    rx: RxView,
    transfer_tag: u64,
    block_index: u32,
    payload: Seq<u8>,
)
    requires
        paired(tx, rx),
        tx.authentic(transfer_tag, block_index, payload),
        tx matches TxView::Sealed { key, seq } ==> seq < u64::MAX,
    ensures
        rx.opened(transfer_tag, tx.wire(transfer_tag, block_index, payload)) == Some(
            (block_index, payload),
        ),
        paired(
            tx.next(),
            rx.after(transfer_tag, tx.wire(transfer_tag, block_index, payload)),
        ),
        paired(tx.next(), rx),
{
    match tx {
        TxView::Plain => {
            law_plain_round_trip(transfer_tag, transfer_tag, block_index, payload);
        },
        TxView::Sealed { key, seq } => {
            if let RxView::Sealed { key: k, window } = rx {
                sealed::law_opens_what_was_sealed(
                    key,
                    window,
                    transfer_tag,
                    seq,
                    block_index,
                    payload,
                    tx.wire(transfer_tag, block_index, payload),
                );
            }
        },
    }
}

/// A plaintext datagram, byte by byte: "ATP2", the transfer tag and the block
/// index, least significant byte first, and the payload.
pub proof fn law_plaintext_byte_by_byte(transfer_tag: u64, block_index: u32, payload: Seq<u8>)
    ensures
        ({
            let w = plain_wire(transfer_tag, block_index, payload);
            &&& w.len() == 16 + payload.len()
            &&& w[0] == 0x41 && w[1] == 0x54 && w[2] == 0x50 && w[3] == 0x32
            &&& w[4] + 0x100 * w[5] + 0x1_0000 * w[6] + 0x100_0000 * w[7] + 0x1_0000_0000 * w[8]
                + 0x100_0000_0000 * w[9] + 0x1_0000_0000_0000 * w[10] + 0x100_0000_0000_0000
                * w[11] == transfer_tag
            &&& w[12] + 0x100 * w[13] + 0x1_0000 * w[14] + 0x100_0000 * w[15] == block_index
            &&& w.subrange(16, w.len() as int) == payload
        }),
{
    let w = plain_wire(transfer_tag, block_index, payload);
    law_numbers_are_written_and_read(transfer_tag, block_index);
    law_bytes_count_by_their_places(le_bytes(transfer_tag as nat, 8));
    law_bytes_count_by_their_places(le_bytes(block_index as nat, 4));
    assert(w.subrange(16, w.len() as int) =~= payload);
}

/// A plaintext receiver takes exactly the datagrams that a plaintext sender of
/// its transfer makes, each for what it was made of.
pub proof fn law_only_plaintext_of_the_transfer_is_parsed(
    transfer_tag: u64,
    buf: Seq<u8>,
    block_index: u32,
    payload: Seq<u8>,
)
    ensures
        parsed(transfer_tag, buf) == Some((block_index, payload)) <==> buf == plain_wire(
            transfer_tag,
            block_index,
            payload,
        ),
{
    law_plain_round_trip(transfer_tag, transfer_tag, block_index, payload);
    if parsed(transfer_tag, buf) == Some((block_index, payload)) {
        lemma_byte_range();
        lemma_le_value_bytes(buf.subrange(4, 12));
        lemma_le_value_bytes(buf.subrange(12, 16));
        assert(buf =~= buf.subrange(0, 4) + buf.subrange(4, 12) + buf.subrange(12, 16)
            + buf.subrange(16, buf.len() as int));
        assert(buf =~= plain_wire(transfer_tag, block_index, payload));
    }
}

/// A sealed plane numbers its datagrams one after the other and keeps its key;
/// only after the last 64-bit number does it begin anew. A plaintext plane has
/// no numbers.
pub proof fn law_numbers_go_up_by_one(tx: TxView)
    ensures
        tx is Plain ==> tx.next() is Plain,
        tx matches TxView::Sealed { key, seq } ==> {
            &&& tx.next() matches TxView::Sealed { key: k, seq: n }
            &&& k == key
            &&& seq < u64::MAX ==> n == seq + 1
            &&& seq == u64::MAX ==> n == 0
        },
{
}

/// A datagram is made with the plane's own key and next number, and in the
/// clear on a plaintext plane.
pub proof fn law_a_plane_encodes_in_its_own_way(
    tx: TxView,
    transfer_tag: u64,
    block_index: u32,
    payload: Seq<u8>,
)
    ensures
        tx is Plain ==> tx.wire(transfer_tag, block_index, payload) == plain_wire(
            transfer_tag,
            block_index,
            payload,
        ),
        tx matches TxView::Sealed { key, seq } ==> tx.wire(transfer_tag, block_index, payload)
            == sealed::sealed_wire(key, transfer_tag, seq, block_index, payload),
{
}

/// The span is one more than the highest number accepted, and a plaintext plane
/// has none. Opening a datagram keeps the kind of the plane and its key.
pub proof fn law_the_span_reaches_to_the_highest_number(
    rx: RxView,
    transfer_tag: u64,
    buf: Seq<u8>,
)
    ensures
        rx is Plain ==> rx.span() is None && rx.after(transfer_tag, buf) is Plain
            && rx.buffer_after(transfer_tag, buf) == buf,
        rx matches RxView::Sealed { key, window } ==> {
            &&& window.highest is None ==> rx.span() is None
            &&& window.highest matches Some(h) ==> (h < u64::MAX ==> rx.span() == Some(
                (h + 1) as u64,
            ))
            &&& rx.after(transfer_tag, buf) matches RxView::Sealed { key: k, window: w }
            &&& k == key
            &&& rx.opened(transfer_tag, buf) is None ==> w == window && rx.buffer_after(
                transfer_tag,
                buf,
            ) == buf
            &&& rx.opened(transfer_tag, buf) is Some ==> w == window.commit(sealed::wire_seq(buf))
        },
{
}

/// A payload is refused only by a sealed plane, and exactly where its body is
/// longer than the cipher takes; what is then left of it is the header and the
/// body in the clear. A plaintext plane takes every payload.
pub proof fn law_only_the_cipher_refuses(
    tx: TxView,
    transfer_tag: u64,
    block_index: u32,
    payload: Seq<u8>,
)
    ensures
        tx.refuses(payload.len()) <==> tx is Sealed && payload.len() + 4 >= 64 * 0xFFFF_FFFF,
        tx is Plain || payload.len() + 4 <= 64 * 0xFFFF_FFFE ==> tx.takes(payload.len()),
        tx is Plain ==> tx.left_over(transfer_tag, block_index, payload).len() == 0,
        tx matches TxView::Sealed { key, seq } ==> tx.left_over(transfer_tag, block_index, payload)
            == sealed::header(transfer_tag, seq) + sealed::plain_body(block_index, payload),
{
}

} // verus!
