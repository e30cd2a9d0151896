//! The receiving side: the handshake, collecting packets, acknowledging
//! blocks, and the verdict.

use vstd::prelude::*;
use vstd::string::StringExecFns;
use crate::blocks::{ceil_div, div_ceil, law_stored_blocks_are_the_file, stored, stored_all};
use crate::blocks::{lemma_ceil_div, Layout};
use crate::datagram::{RxPlane, RxView};
use crate::error::Error;
use crate::fec::{all_source_carried, carried, coded_size};
use crate::fec::{decoding, one_source_block, packet_of, packets_of, raptorq_decoded, takes};
use crate::fec::{BlockDecoder, PAYLOAD_ID_LEN};
use crate::replay::{delivered, law_deliveries_fit_the_span, WindowView};
use crate::sealed::wire_seq;
use crate::text::{decimal, push_decimal};
use crate::wire::{unexpected, Frame, VERSION};

verus! {

/// A path of the standard library, which this library only carries.
#[verifier::external_type_specification]
#[verifier::external_body]
pub struct ExPathBuf(std::path::PathBuf);

/// What a receiver is told on the command line.
#[derive(Debug)]
pub struct RecvArgs {
    /// Where to write the received file.
    pub output: std::path::PathBuf,
    /// Control address to listen on.
    pub listen: String,
    /// UDP port for the symbol plane (0 = whichever is free, reported to the
    /// sender).
    pub udp_port: u16,
    /// Plaintext mode: no TLS, no sealed datagrams.
    pub nocrypto: bool,
}

/// What the sender's greeting comes to.
#[derive(Debug)]
pub enum Greeting {
    /// Go on with the transfer of this tag.
    Accepted { transfer_tag: u64 },
    /// Send the reply, then give up.
    Refused { reply: Frame, error: Error },
    /// Give up.
    Broken(Error),
}

/// The refusal of a peer that speaks another version.
pub open spec fn version_text(version: u32) -> Seq<char> {
    "version mismatch: peer "@ + decimal(version as nat) + ", ours "@ + decimal(VERSION as nat)
}

/// What a first frame comes to: a greeting of this version is accepted, one of
/// another refused, and any other frame breaks the protocol.
pub open spec fn greeted(frame: Frame, g: Greeting) -> bool {
    match frame {
        Frame::Hello { version, transfer_tag } => if version == VERSION {
            g == (Greeting::Accepted { transfer_tag })
        } else {
            g matches Greeting::Refused {
                reply: Frame::Done { ok, error: Some(text) },
                error: Error::Protocol(m),
            } && !ok && text@ == version_text(version) && m@ == version_text(version)
        },
        _ => g matches Greeting::Broken(Error::Protocol(m)) && m@ == "expected "@ + "Hello"@
            + ", got "@ + frame.shown(),
    }
}

/// Check the sender's greeting.
pub fn check_hello(frame: &Frame) -> (g: Greeting)
    ensures
        greeted(*frame, g),
{
    match frame {
        Frame::Hello { version, transfer_tag } => {
            if *version != VERSION {
                let mut m = "version mismatch: peer ".to_owned();
                push_decimal(&mut m, *version as u64);
                m.append(", ours ");
                push_decimal(&mut m, VERSION as u64);
                assert(m@ =~= version_text(*version));
                let reply = Frame::Done { ok: false, error: Some(m.clone()) };
                return Greeting::Refused { reply, error: Error::Protocol(m) };
            }
            Greeting::Accepted { transfer_tag: *transfer_tag }
        },
        _ => Greeting::Broken(unexpected("Hello", frame)),
    }
}

/// The receiver's answer to the greeting.
pub fn hello_ack(udp_port: u16) -> (f: Frame)
    ensures
        f == (Frame::HelloAck { udp_port }),
{
    Frame::HelloAck { udp_port }
}

/// The file that a manifest describes.
#[derive(Debug)]
pub struct Incoming {
    pub file_name: String,
    pub sha256: String,
    pub layout: Layout,
}

/// The blocks that a manifest's sizes give, where none is zero, can be counted
/// in 32 bits.
pub open spec fn countable(frame: Frame) -> bool {
    match frame {
        Frame::Manifest { file_size, block_size, symbol_size, .. } => block_size > 0 && symbol_size
            > 0 ==> ceil_div(file_size as nat, block_size as nat) <= u32::MAX,
        _ => true,
    }
}

/// What a second frame comes to: a manifest without a zero size, whose block
/// count is the one that its sizes give, describes a file, and any other frame
/// breaks the protocol.
pub open spec fn described(frame: Frame, r: Result<Incoming, Error>) -> bool {
    match frame {
        Frame::Manifest {
            file_name,
            file_size,
            sha256,
            block_size,
            symbol_size,
            num_blocks,
        } => if file_size == 0 || block_size == 0 || symbol_size == 0 {
            r matches Err(Error::Protocol(m)) && m@ == "degenerate manifest"@
        } else {
            let computed = ceil_div(file_size as nat, block_size as nat);
            if computed != num_blocks {
                r matches Err(Error::Protocol(m)) && m@ == "block count mismatch: manifest "@
                    + decimal(num_blocks as nat) + ", computed "@ + decimal(computed)
            } else {
                r matches Ok(inc) && inc.file_name == file_name && inc.sha256 == sha256
                    && inc.layout.wf() && inc.layout == (Layout {
                    file_size,
                    block_size,
                    symbol_size,
                    num_blocks,
                })
            }
        },
        _ => r matches Err(Error::Protocol(m)) && m@ == "expected "@ + "Manifest"@ + ", got "@
            + frame.shown(),
    }
}

/// Check the sender's manifest: no size may be zero, and its block count must
/// be the one that its sizes give.
pub fn check_manifest(frame: Frame) -> (r: Result<Incoming, Error>)
    requires
        countable(frame),
    ensures
        described(frame, r),
{
    match frame {
        Frame::Manifest {
            file_name,
            file_size,
            sha256,
            block_size,
            symbol_size,
            num_blocks,
        } => {
            if file_size == 0 || block_size == 0 || symbol_size == 0 {
                return Err(Error::protocol("degenerate manifest"));
            }
            let layout = Layout::new(file_size, block_size, symbol_size);
            if layout.num_blocks != num_blocks {
                let mut m = "block count mismatch: manifest ".to_owned();
                push_decimal(&mut m, num_blocks as u64);
                m.append(", computed ");
                push_decimal(&mut m, layout.num_blocks as u64);
                return Err(Error::Protocol(m));
            }
            Ok(Incoming { file_name, sha256, layout })
        },
        f => Err(unexpected("Manifest", &f)),
    }
}

/// Whether [`check_manifest`] can count the blocks.
pub fn is_countable(frame: &Frame) -> (ok: bool)
    ensures
        ok == countable(*frame),
{
    match frame {
        Frame::Manifest { file_size, block_size, symbol_size, .. } => {
            *block_size == 0 || *symbol_size == 0 || div_ceil(*file_size, *block_size as u64)
                <= u32::MAX as u64
        },
        _ => true,
    }
}

/// One block on its way in.
enum BlockState {
    /// Not decoded yet; the decoder is made for the first packet.
    Pending(Option<BlockDecoder>),
    /// Decoded and written.
    Done,
}

/// What a block stands for: the packets that it was fed, or that it is done.
#[verifier::ext_equal]
pub enum BlockView {
    Pending { packets: Seq<Seq<u8>> },
    Done,
}

impl BlockState {
    spec fn view(self) -> BlockView {
        match self {
            BlockState::Pending(None) => BlockView::Pending { packets: Seq::empty() },
            BlockState::Pending(Some(d)) => BlockView::Pending { packets: d.packets() },
            BlockState::Done => BlockView::Done,
        }
    }

    spec fn wf(self, info: (u64, u16)) -> bool {
        self matches BlockState::Pending(Some(d)) ==> d.wf() && d.info() == info
    }
}

/// How many of `blocks` are done.
pub open spec fn count_done(blocks: Seq<BlockView>) -> nat
    decreases blocks.len(),
{
    if blocks.len() == 0 {
        0
    } else {
        count_done(blocks.drop_last()) + if blocks.last() is Done {
            1nat
        } else {
            0
        }
    }
}

proof fn lemma_done_bound(s: Seq<BlockView>)
    ensures
        count_done(s) <= s.len(),
        count_done(s) == s.len() <==> forall|i: int| 0 <= i < s.len() ==> s[i] is Done,
    decreases s.len(),
{
    if s.len() > 0 {
        let t = s.drop_last();
        lemma_done_bound(t);
        assert(forall|i: int| 0 <= i < t.len() ==> t[i] == s[i]);
        if count_done(s) == s.len() {
            assert forall|i: int| 0 <= i < s.len() implies s[i] is Done by {
                if i < t.len() {
                    assert(t[i] is Done);
                }
            }
        } else if forall|i: int| 0 <= i < s.len() ==> s[i] is Done {
            assert(s[s.len() - 1] is Done);
        }
    }
}

proof fn lemma_done_update(s: Seq<BlockView>, i: int, b: BlockView)
    requires
        0 <= i < s.len(),
        !(s[i] is Done),
    ensures
        count_done(s.update(i, b)) == count_done(s) + if b is Done {
            1nat
        } else {
            0
        },
    decreases s.len(),
{
    let u = s.update(i, b);
    if i == s.len() - 1 {
        assert(u.drop_last() =~= s.drop_last());
    } else {
        lemma_done_update(s.drop_last(), i, b);
        assert(u.drop_last() =~= s.drop_last().update(i, b));
    }
}

/// What a datagram comes to.
pub enum Delivery {
    /// Not opened, or too short for a packet.
    Dropped,
    /// For a block that the file does not have.
    Stray,
    /// For a block that is done.
    Late,
    /// Fed to no decoder, for the decoder would panic on it: the block cannot
    /// be decoded at all, the packet names a source block that its block does
    /// not have, or it makes the decoder work with a symbol of another length
    /// than this file's, its own or one that was fed before. (Where a block
    /// has several source blocks and this one's is already solved, the decoder
    /// would pass the packet over instead.)
    Malformed,
    /// Fed to the block's decoder.
    Fed,
    /// The block is decoded: write the data, then call [`Receiver::written`].
    Decoded { block: u32, data: Vec<u8> },
}

/// What a delivery stands for.
pub enum DeliveryView {
    Dropped,
    Stray,
    Late,
    Malformed,
    Fed,
    Decoded { block: u32, data: Seq<u8> },
}

impl View for Delivery {
    type V = DeliveryView;

    open spec fn view(&self) -> DeliveryView {
        match self {
            Delivery::Dropped => DeliveryView::Dropped,
            Delivery::Stray => DeliveryView::Stray,
            Delivery::Late => DeliveryView::Late,
            Delivery::Malformed => DeliveryView::Malformed,
            Delivery::Fed => DeliveryView::Fed,
            Delivery::Decoded { block, data } => DeliveryView::Decoded {
                block: *block,
                data: data@,
            },
        }
    }
}

/// What a receiver stands for.
#[verifier::ext_equal]
pub struct ReceiverView {
    pub layout: Layout,
    pub transfer_tag: u64,
    pub plane: RxView,
    pub blocks: Seq<BlockView>,
    /// Datagrams that carried a packet.
    pub pkts: nat,
    /// Those of them that came after their block was done.
    pub late: nat,
    /// Blocks done but not acknowledged yet.
    pub acks: Seq<u32>,
    pub ticks: u32,
}

impl ReceiverView {
    /// The decoder of block `b` can take the packet.
    pub open spec fn fits(self, b: u32, p: Seq<u8>) -> bool {
        takes(self.layout.len(b as int) as u64, self.layout.symbol_size, self.fed(b, p))
    }

    /// The packet that a datagram brings to a block that wants it.
    pub open spec fn feeds(self, buf: Seq<u8>) -> Option<(u32, Seq<u8>)> {
        match self.plane.opened(self.transfer_tag, buf) {
            Some((b, p)) => if p.len() >= PAYLOAD_ID_LEN && b < self.layout.num_blocks
                && self.blocks[b as int] is Pending && self.fits(b, p) {
                Some((b, p))
            } else {
                None
            },
            None => None,
        }
    }

    /// The packets of block `b` with one more.
    pub open spec fn fed(self, b: u32, packet: Seq<u8>) -> Seq<Seq<u8>> {
        match self.blocks[b as int] {
            BlockView::Pending { packets } => packets.push(packet),
            BlockView::Done => Seq::empty(),
        }
    }

    /// What the receiver does about a packet for block `b`.
    pub open spec fn offered(self, b: u32, p: Seq<u8>) -> (ReceiverView, DeliveryView) {
        if self.blocks[b as int] is Done {
            (ReceiverView { late: self.late + 1, ..self }, DeliveryView::Late)
        } else if !self.fits(b, p) {
            (self, DeliveryView::Malformed)
        } else {
            let packets = self.fed(b, p);
            let v = ReceiverView {
                blocks: self.blocks.update(b as int, BlockView::Pending { packets }),
                ..self
            };
            match raptorq_decoded(
                self.layout.len(b as int) as u64,
                self.layout.symbol_size,
                packets,
            ) {
                None => (v, DeliveryView::Fed),
                Some(data) => (v, DeliveryView::Decoded { block: b, data }),
            }
        }
    }

    /// What the receiver does about a datagram.
    pub open spec fn step(self, buf: Seq<u8>) -> (ReceiverView, DeliveryView) {
        let v = ReceiverView { plane: self.plane.after(self.transfer_tag, buf), ..self };
        match self.plane.opened(self.transfer_tag, buf) {
            None => (v, DeliveryView::Dropped),
            Some((b, p)) => if p.len() < PAYLOAD_ID_LEN {
                (v, DeliveryView::Dropped)
            } else {
                let v = ReceiverView { pkts: self.pkts + 1, ..v };
                if b >= self.layout.num_blocks {
                    (v, DeliveryView::Stray)
                } else {
                    v.offered(b, p)
                }
            },
        }
    }

    /// The report for the sender: the packet count, the span and the time.
    pub open spec fn report(self, t_ms: u64) -> Option<(u64, Option<u64>, u64)> {
        if self.pkts == 0 {
            None
        } else {
            Some((self.pkts as u64, self.plane.span(), t_ms))
        }
    }

    /// The receiver after a block was written.
    pub open spec fn wrote(self, b: u32) -> ReceiverView {
        ReceiverView {
            blocks: self.blocks.update(b as int, BlockView::Done),
            acks: self.acks.push(b),
            ..self
        }
    }
}

/// The receiver of one transfer.
pub struct Receiver {
    layout: Layout,
    transfer_tag: u64,
    plane: RxPlane,
    blocks: Vec<BlockState>,
    decoded: u32,
    pkts: u64,
    late: u64,
    acks: Vec<u32>,
    ticks: u32,
}

impl View for Receiver {
    type V = ReceiverView;

    closed spec fn view(&self) -> ReceiverView {
        ReceiverView {
            layout: self.layout,
            transfer_tag: self.transfer_tag,
            plane: self.plane@,
            blocks: self.blocks@.map_values(|b: BlockState| b.view()),
            pkts: self.pkts as nat,
            late: self.late as nat,
            acks: self.acks@,
            ticks: self.ticks,
        }
    }
}

impl Receiver {
    /// Each block's decoder is one for that block, and the counts are right.
    pub closed spec fn wf(self) -> bool {
        &&& self.layout.wf()
        &&& self.blocks@.len() == self.layout.num_blocks
        &&& forall|b: int|
            0 <= b < self.blocks@.len() ==> (#[trigger] self.blocks@[b]).wf(
                (self.layout.len(b) as u64, self.layout.symbol_size),
            )
        &&& self.decoded == count_done(self@.blocks)
        &&& self.late <= self.pkts
    }

    /// A receiver that has collected nothing.
    pub fn new(layout: Layout, plane: RxPlane, transfer_tag: u64) -> (r: Self)
        requires
            layout.wf(),
        ensures
            r.wf(),
            r@ == (ReceiverView {
                layout,
                transfer_tag,
                plane: plane@,
                blocks: Seq::new(
                    layout.num_blocks as nat,
                    |i: int| BlockView::Pending { packets: Seq::empty() },
                ),
                pkts: 0,
                late: 0,
                acks: Seq::empty(),
                ticks: 0,
            }),
    {
        let mut blocks: Vec<BlockState> = Vec::new();
        let mut i: u32 = 0;
        while i < layout.num_blocks
            invariant
                i <= layout.num_blocks,
                blocks@.len() == i,
                forall|j: int| 0 <= j < i ==> blocks@[j] == BlockState::Pending(None),
            decreases layout.num_blocks - i,
        {
            blocks.push(BlockState::Pending(None));
            i = i + 1;
        }
        let r = Receiver {
            layout,
            transfer_tag,
            plane,
            blocks,
            decoded: 0,
            pkts: 0,
            late: 0,
            acks: Vec::new(),
            ticks: 0,
        };
        proof {
            let fresh = Seq::new(
                layout.num_blocks as nat,
                |i: int| BlockView::Pending { packets: Seq::empty() },
            );
            assert(r@.blocks =~= fresh);
            lemma_none_done(fresh);
            assert(r@.acks =~= Seq::<u32>::empty());
        }
        r
    }

    /// Take a datagram: open it, and feed its packet to its block.
    pub fn on_datagram(&mut self, buf: &mut [u8]) -> (delivery: Delivery)
        requires
            old(self).wf(),
            old(self)@.plane.takes(old(self)@.transfer_tag, old(buf)@),
            old(self)@.pkts < u64::MAX,
        ensures
            final(self).wf(),
            (final(self)@, delivery@) == old(self)@.step(old(buf)@),
            final(buf)@ == old(self)@.plane.buffer_after(old(self)@.transfer_tag, old(buf)@),
            old(self)@.feeds(old(buf)@) matches Some((b, p)) ==> decoding(
                old(self)@.layout.len(b as int) as u64,
                old(self)@.layout.symbol_size,
                old(self)@.fed(b, p),
                match delivery {
                    Delivery::Decoded { block, data } => Some(data@),
                    _ => None,
                },
            ),
    {
        match self.plane.open(self.transfer_tag, buf) {
            None => Delivery::Dropped,
            Some((b, payload)) => {
                if payload.len() < PAYLOAD_ID_LEN {
                    return Delivery::Dropped;
                }
                self.pkts = self.pkts + 1;
                if b >= self.layout.num_blocks {
                    return Delivery::Stray;
                }
                self.feed(b, payload)
            },
        }
    }

    /// Feed a packet to block `b`.
    fn feed(&mut self, b: u32, payload: &[u8]) -> (delivery: Delivery)
        requires
            old(self).wf(),
            b < old(self)@.layout.num_blocks,
            old(self).late < old(self).pkts,
            payload@.len() >= PAYLOAD_ID_LEN,
        ensures
            final(self).wf(),
            (final(self)@, delivery@) == old(self)@.offered(b, payload@),
            old(self)@.blocks[b as int] is Pending && old(self)@.fits(b, payload@) ==> decoding(
                old(self)@.layout.len(b as int) as u64,
                old(self)@.layout.symbol_size,
                old(self)@.fed(b, payload@),
                match delivery {
                    Delivery::Decoded { block, data } => Some(data@),
                    _ => None,
                },
            ),
    {
        let i: usize = b as usize;
        let ghost start = self@;
        proof {
            self.layout.lemma_bounds(b as int);
            assert(start.blocks[b as int] == self.blocks@[b as int].view());
        }
        let mut state = BlockState::Done;
        core::mem::swap(&mut state, &mut self.blocks[i]);
        match state {
            BlockState::Done => {
                self.late = self.late + 1;
                assert(self@.blocks =~= start.blocks);
                Delivery::Late
            },
            BlockState::Pending(slot) => {
                let ready: Option<BlockDecoder> = match slot {
                    Some(d) => Some(d),
                    None => BlockDecoder::new(self.layout.oti(b)),
                };
                let mut decoder: BlockDecoder = match ready {
                    Some(d) => d,
                    None => {
                        self.blocks[i] = BlockState::Pending(None);
                        assert(self@.blocks =~= start.blocks);
                        return Delivery::Malformed;
                    },
                };
                if !decoder.takes(payload) {
                    self.blocks[i] = BlockState::Pending(Some(decoder));
                    assert(self@.blocks =~= start.blocks);
                    return Delivery::Malformed;
                }
                let r = decoder.feed(payload);
                let ghost packets = decoder.packets();
                self.blocks[i] = BlockState::Pending(Some(decoder));
                proof {
                    let next = BlockView::Pending { packets };
                    assert(self@.blocks =~= start.blocks.update(b as int, next));
                    lemma_done_update(start.blocks, b as int, next);
                }
                match r {
                    None => Delivery::Fed,
                    Some(data) => Delivery::Decoded { block: b, data },
                }
            },
        }
    }

    /// Note that a decoded block was written; it will be acknowledged.
    pub fn written(&mut self, b: u32)
        requires
            old(self).wf(),
            b < old(self)@.layout.num_blocks,
            old(self)@.blocks[b as int] is Pending,
        ensures
            final(self).wf(),
            final(self)@ == old(self)@.wrote(b),
    {
        let i: usize = b as usize;
        let ghost start = self@;
        self.blocks[i] = BlockState::Done;
        proof {
            assert(self@.blocks =~= start.blocks.update(b as int, BlockView::Done));
            lemma_done_update(start.blocks, b as int, BlockView::Done);
            lemma_done_bound(self@.blocks);
        }
        self.decoded = self.decoded + 1;
        self.acks.push(b);
    }

    /// Whether block `b` still wants packets.
    pub fn is_pending(&self, b: u32) -> (r: bool)
        requires
            self.wf(),
        ensures
            r == (b < self@.layout.num_blocks && self@.blocks[b as int] is Pending),
    {
        if b >= self.layout.num_blocks {
            return false;
        }
        assert(self@.blocks[b as int] == self.blocks@[b as int].view());
        match &self.blocks[b as usize] {
            BlockState::Pending(_) => true,
            BlockState::Done => false,
        }
    }

    /// The acknowledgements to send now.
    pub fn take_acks(&mut self) -> (r: Vec<u32>)
        requires
            old(self).wf(),
        ensures
            final(self).wf(),
            r@ == old(self)@.acks,
            final(self)@ == (ReceiverView { acks: Seq::empty(), ..old(self)@ }),
    {
        let mut r: Vec<u32> = Vec::new();
        core::mem::swap(&mut r, &mut self.acks);
        assert(self@.acks =~= Seq::<u32>::empty());
        r
    }

    /// Count a report tick; gives whether its status is to be shown, which is
    /// every fifth time.
    pub fn tick(&mut self) -> (show: bool)
        requires
            old(self).wf(),
            old(self)@.ticks < u32::MAX,
        ensures
            final(self).wf(),
            final(self)@ == (ReceiverView { ticks: (old(self)@.ticks + 1) as u32, ..old(self)@ }),
            show == (final(self)@.ticks % 5 == 0),
    {
        self.ticks = self.ticks + 1;
        self.ticks % 5 == 0
    }

    /// The report for the sender; there is none before the first datagram
    /// that carried a packet.
    pub fn progress(&self, t_ms: u64) -> (r: Option<Frame>)
        requires
            self@.pkts > 0 ==> self@.plane.highest() != Some(u64::MAX),
        ensures
            self@.pkts == 0 ==> r is None,
            self@.pkts > 0 ==> r == Some(
                (Frame::Progress { pkts: self@.pkts as u64, span: self@.plane.span(), t_ms }),
            ),
            match self@.report(t_ms) {
                None => r is None,
                Some((pkts, span, t)) => r == Some((Frame::Progress { pkts, span, t_ms: t })),
            },
    {
        if self.pkts == 0 {
            return None;
        }
        Some(Frame::Progress { pkts: self.pkts, span: self.plane.seq_span(), t_ms })
    }

    /// Whether the sequence span can be reported.
    pub fn span_fits(&self) -> (r: bool)
        ensures
            r == (self@.plane.highest() != Some(u64::MAX)),
    {
        self.plane.span_fits()
    }

    /// Whether every block is done.
    pub fn is_complete(&self) -> (r: bool)
        requires
            self.wf(),
        ensures
            r == (forall|b: int| 0 <= b < self@.blocks.len() ==> self@.blocks[b] is Done),
    {
        proof {
            lemma_done_bound(self@.blocks);
        }
        self.decoded >= self.layout.num_blocks
    }

    /// Blocks done so far.
    pub fn decoded(&self) -> (n: u32)
        requires
            self.wf(),
        ensures
            n == count_done(self@.blocks),
    {
        self.decoded
    }

    /// Datagrams that carried a packet.
    pub fn packets(&self) -> (n: u64)
        ensures
            n == self@.pkts,
    {
        self.pkts
    }

    /// Those of them that came after their block was done.
    pub fn late_packets(&self) -> (n: u64)
        ensures
            n == self@.late,
    {
        self.late
    }

    /// Report ticks so far.
    pub fn ticks(&self) -> (n: u32)
        ensures
            n == self@.ticks,
    {
        self.ticks
    }
}

/// The acknowledgement of a block.
pub fn ack(block: u32) -> (f: Frame)
    ensures
        f == (Frame::BlockDecoded { index: block }),
{
    Frame::BlockDecoded { index: block }
}

/// The complaint about a file whose digest is not the expected one.
pub open spec fn mismatch_text(expected: Seq<char>, actual: Seq<char>) -> Seq<char> {
    "sha256 mismatch: expected "@ + expected + ", got "@ + actual
}

/// There is a complaint exactly where the digests differ.
pub open spec fn judged(
    expected: Seq<char>,
    actual: Seq<char>,
    error: Option<String>,
) -> bool {
    match error {
        None => expected == actual,
        Some(m) => expected != actual && m@ == mismatch_text(expected, actual),
    }
}

/// The frame carries the verdict.
pub open spec fn reported(error: Option<String>, f: Frame) -> bool {
    f matches Frame::Done { ok, error: e } && ok == (error is None) && match error {
        None => e is None,
        Some(m) => e matches Some(n) && n@ == m@,
    }
}

/// The receiver succeeds exactly where there is no complaint.
pub open spec fn concluded(error: Option<String>, r: Result<(), Error>) -> bool {
    match error {
        None => r is Ok,
        Some(m) => r == Err::<(), Error>(Error::Transfer(m)),
    }
}

/// Compare the digest that the manifest promised with that of the file.
/// Gives the complaint where they differ.
pub fn verdict(expected: &String, actual: &String) -> (error: Option<String>)
    ensures
        judged(expected@, actual@, error),
{
    if *actual == *expected {
        return None;
    }
    let mut m = "sha256 mismatch: expected ".to_owned();
    m.append(expected.as_str());
    m.append(", got ");
    m.append(actual.as_str());
    Some(m)
}

/// The verdict as it goes to the sender.
pub fn done(error: &Option<String>) -> (f: Frame)
    ensures
        reported(*error, f),
{
    match error {
        None => Frame::Done { ok: true, error: None },
        Some(m) => Frame::Done { ok: false, error: Some(m.clone()) },
    }
}

/// The receiver's result, given the verdict.
pub fn conclude(error: Option<String>) -> (r: Result<(), Error>)
    ensures
        concluded(error, r),
{
    match error {
        None => Ok(()),
        Some(m) => Err(Error::Transfer(m)),
    }
}

proof fn lemma_none_done(s: Seq<BlockView>)
    requires
        forall|i: int| 0 <= i < s.len() ==> !(s[i] is Done),
    ensures
        count_done(s) == 0,
    decreases s.len(),
{
    if s.len() > 0 {
        assert(forall|i: int| 0 <= i < s.drop_last().len() ==> s.drop_last()[i] == s[i]);
        lemma_none_done(s.drop_last());
    }
}

impl ReceiverView {
    /// So far every packet that a block was fed is one of that block of
    /// `file`.
    pub open spec fn fed_by(self, file: Seq<u8>) -> bool {
        &&& self.layout.wf()
        &&& self.blocks.len() == self.layout.num_blocks
        &&& file.len() == self.layout.file_size
        &&& forall|b: int|
            0 <= b < self.blocks.len() ==> (#[trigger] self.blocks[b] matches BlockView::Pending {
                packets,
            } ==> packets_of(self.layout.block(file, b), self.layout.symbol_size, packets))
    }
}

/// While every packet that arrives is one of `file`, what the receiver
/// decodes is the file's block.
pub proof fn law_decodes_the_files_block(
    v: ReceiverView,
    file: Seq<u8>,
    buf: Seq<u8>,
    b: u32,
    packet: Seq<u8>,
    decoded: Option<Seq<u8>>,
)
    requires
        v.fed_by(file),
        v.layout.codable(),
        v.feeds(buf) == Some((b, packet)),
        packet_of(v.layout.block(file, b as int), v.layout.symbol_size, packet),
        decoding(
            v.layout.len(b as int) as u64,
            v.layout.symbol_size,
            v.fed(b, packet),
            decoded,
        ),
    ensures
        v.step(buf).0.fed_by(file),
        decoded matches Some(data) ==> data == v.layout.block(file, b as int),
{
    v.layout.lemma_bounds(b as int);
    assert(one_source_block(v.layout.len(b as int) as nat, v.layout.symbol_size));
    lemma_fed_once_more(v, file, buf, b, packet);
    assert(packets_of(v.layout.block(file, b as int), v.layout.symbol_size, v.fed(b, packet)));
}

proof fn lemma_fed_once_more(
    v: ReceiverView,
    file: Seq<u8>,
    buf: Seq<u8>,
    b: u32,
    packet: Seq<u8>,
)
    requires
        v.fed_by(file),
        v.feeds(buf) == Some((b, packet)),
        packet_of(v.layout.block(file, b as int), v.layout.symbol_size, packet),
    ensures
        v.step(buf).0.fed_by(file),
        packets_of(
            v.layout.block(file, b as int),
            v.layout.symbol_size,
            v.fed(b, packet),
        ),
{
    let object = v.layout.block(file, b as int);
    v.layout.lemma_bounds(b as int);
    assert(v.blocks[b as int] is Pending);
    let packets = v.fed(b, packet);
    assert(packets_of(object, v.layout.symbol_size, packets)) by {
        let before = v.blocks[b as int]->packets;
        assert forall|j: int| 0 <= j < packets.len() implies packet_of(
            object,
            v.layout.symbol_size,
            #[trigger] packets[j],
        ) by {
            if j < before.len() {
                assert(packets[j] == before[j]);
            }
        }
    }
}

/// A datagram that feeds nothing leaves what was fed as it is.
pub proof fn law_other_datagrams_feed_nothing(v: ReceiverView, file: Seq<u8>, buf: Seq<u8>)
    requires
        v.fed_by(file),
        v.feeds(buf) is None,
    ensures
        v.step(buf).0.fed_by(file),
        v.step(buf).0.blocks == v.blocks,
{
}

/// What can happen to a receiver.
pub enum Move {
    /// A datagram came in.
    Datagram(Seq<u8>),
    /// A decoded block was written.
    Written(u32),
    /// The acknowledgements were taken.
    TakeAcks,
    /// A tick was counted.
    Tick,
}

impl ReceiverView {
    /// The receiver after a move.
    pub open spec fn moved(self, m: Move) -> ReceiverView {
        match m {
            Move::Datagram(buf) => self.step(buf).0,
            Move::Written(b) => self.wrote(b),
            Move::TakeAcks => ReceiverView { acks: Seq::empty(), ..self },
            Move::Tick => ReceiverView { ticks: (self.ticks + 1) as u32, ..self },
        }
    }

    /// The move can be made: a block is written only once.
    pub open spec fn can(self, m: Move) -> bool {
        m matches Move::Written(b) ==> b < self.blocks.len() && self.blocks[b as int] is Pending
    }

    /// The receiver after a run of moves.
    pub open spec fn after(self, moves: Seq<Move>) -> ReceiverView
        decreases moves.len(),
    {
        if moves.len() == 0 {
            self
        } else {
            self.after(moves.drop_last()).moved(moves.last())
        }
    }

    /// Each move of the run can be made in its turn.
    pub open spec fn can_all(self, moves: Seq<Move>) -> bool
        decreases moves.len(),
    {
        moves.len() == 0 || (self.can_all(moves.drop_last()) && self.after(moves.drop_last()).can(
            moves.last(),
        ))
    }

    /// The acknowledgements taken during a run.
    pub open spec fn taken(self, moves: Seq<Move>) -> Seq<u32>
        decreases moves.len(),
    {
        if moves.len() == 0 {
            Seq::empty()
        } else {
            let before = self.taken(moves.drop_last());
            if moves.last() is TakeAcks {
                before + self.after(moves.drop_last()).acks
            } else {
                before
            }
        }
    }
}

/// The blocks written during a run.
pub open spec fn writes(moves: Seq<Move>) -> Seq<u32>
    decreases moves.len(),
{
    if moves.len() == 0 {
        Seq::empty()
    } else {
        match moves.last() {
            Move::Written(b) => writes(moves.drop_last()).push(b),
            _ => writes(moves.drop_last()),
        }
    }
}

/// Over any run each block is written at most once, and each written block is
/// acknowledged exactly once: the acknowledgements taken, with those that
/// still wait, are those that waited before and the blocks written, in order.
/// A block that is done stays so.
pub proof fn law_each_block_is_acknowledged_once(v: ReceiverView, moves: Seq<Move>)
    requires
        v.blocks.len() == v.layout.num_blocks,
        v.can_all(moves),
    ensures
        v.taken(moves) + v.after(moves).acks == v.acks + writes(moves),
        writes(moves).no_duplicates(),
        v.after(moves).blocks.len() == v.blocks.len(),
        v.after(moves).layout == v.layout,
        forall|b: int|
            0 <= b < v.blocks.len() && v.blocks[b] is Done ==> (#[trigger] v.after(
                moves,
            ).blocks[b]) is Done,
        forall|i: int|
            0 <= i < writes(moves).len() ==> {
                let b = #[trigger] writes(moves)[i];
                &&& b < v.blocks.len()
                &&& v.blocks[b as int] is Pending
                &&& v.after(moves).blocks[b as int] is Done
            },
    decreases moves.len(),
{
    if moves.len() == 0 {
        assert(v.taken(moves) + v.after(moves).acks =~= v.acks + writes(moves));
    } else {
        let front = moves.drop_last();
        let w = v.after(front);
        let m = moves.last();
        law_each_block_is_acknowledged_once(v, front);
        assert(w.moved(m).blocks.len() == w.blocks.len());
        assert forall|b: int| 0 <= b < w.blocks.len() && w.blocks[b] is Done implies (
        #[trigger] w.moved(m).blocks[b]) is Done by {}
        let before = writes(front);
        let now = writes(moves);
        match m {
            Move::Written(b) => {
                assert(v.taken(moves) + w.moved(m).acks =~= (v.taken(front) + w.acks).push(b));
                assert(v.acks + now =~= (v.acks + before).push(b));
                assert forall|i: int, j: int|
                    0 <= i < now.len() && 0 <= j < now.len() && i != j implies now[i] != now[j] by {
                    if i < before.len() && j < before.len() {
                        assert(before[i] != before[j]);
                    } else if i < before.len() {
                        assert(w.blocks[before[i] as int] is Done);
                    } else {
                        assert(w.blocks[before[j] as int] is Done);
                    }
                }
                assert forall|i: int| 0 <= i < now.len() implies ({
                    let c = #[trigger] now[i];
                    &&& c < v.blocks.len()
                    &&& v.blocks[c as int] is Pending
                    &&& v.after(moves).blocks[c as int] is Done
                }) by {
                    if i < before.len() {
                        assert(before[i] == now[i]);
                    }
                }
            },
            Move::TakeAcks => {
                assert(v.taken(moves) + w.moved(m).acks =~= v.taken(front) + w.acks);
            },
            _ => {},
        }
        assert forall|i: int| 0 <= i < now.len() implies v.after(moves).blocks[(
        #[trigger] now[i]) as int] is Done by {
            if i < before.len() {
                assert(before[i] == now[i]);
            }
        }
    }
}

proof fn lemma_done_was_written(v: ReceiverView, moves: Seq<Move>, b: u32)
    requires
        v.blocks.len() == v.layout.num_blocks,
        v.can_all(moves),
        b < v.blocks.len(),
        v.blocks[b as int] is Pending,
        v.after(moves).blocks[b as int] is Done,
    ensures
        writes(moves).contains(b),
    decreases moves.len(),
{
    if moves.len() > 0 {
        let front = moves.drop_last();
        let w = v.after(front);
        law_each_block_is_acknowledged_once(v, front);
        let before = writes(front);
        if w.blocks[b as int] is Done {
            lemma_done_was_written(v, front, b);
            let i = choose|i: int| 0 <= i < before.len() && before[i] == b;
            assert(writes(moves)[i] == b);
        } else {
            assert(moves.last() == Move::Written(b));
            assert(writes(moves)[before.len() as int] == b);
        }
    }
}

/// A receiver that began with nothing and is complete has the file: where the
/// blocks written during the run are the file's, at their places, the output
/// is the whole file, whatever it held before and in whatever order they came.
pub proof fn law_a_complete_receiver_has_the_file(
    v: ReceiverView,
    moves: Seq<Move>,
    file: Seq<u8>,
    out: Seq<u8>,
)
    requires
        v.layout.wf(),
        v.blocks.len() == v.layout.num_blocks,
        forall|b: int| 0 <= b < v.blocks.len() ==> v.blocks[b] is Pending,
        v.can_all(moves),
        forall|b: int| 0 <= b < v.blocks.len() ==> v.after(moves).blocks[b] is Done,
        file.len() == v.layout.file_size,
        out.len() == v.layout.file_size,
    ensures
        stored_all(v.layout, file, out, writes(moves)) == file,
{
    law_each_block_is_acknowledged_once(v, moves);
    assert forall|b: u32| b < v.layout.num_blocks implies #[trigger] writes(moves).contains(b) by {
        assert(v.blocks[b as int] is Pending);
        assert(v.after(moves).blocks[b as int] is Done);
        lemma_done_was_written(v, moves, b);
    }
    law_stored_blocks_are_the_file(v.layout, file, out, writes(moves));
}

impl ReceiverView {
    /// Each datagram of the run that feeds a block brings a packet of that
    /// block of `file`.
    pub open spec fn carries(self, moves: Seq<Move>, file: Seq<u8>) -> bool
        decreases moves.len(),
    {
        moves.len() == 0 || {
            let w = self.after(moves.drop_last());
            &&& self.carries(moves.drop_last(), file)
            &&& moves.last() matches Move::Datagram(buf) ==> (w.feeds(buf) matches Some((b, p))
                ==> packet_of(w.layout.block(file, b as int), w.layout.symbol_size, p))
        }
    }

    /// If the datagram feeds a block, the block's decoder gives what
    /// [`Receiver::on_datagram`] promises.
    pub open spec fn decodes_next(self, buf: Seq<u8>) -> bool {
        self.feeds(buf) matches Some((b, p)) ==> decoding(
            self.layout.len(b as int) as u64,
            self.layout.symbol_size,
            self.fed(b, p),
            match self.step(buf).1 {
                DeliveryView::Decoded { block, data } => Some(data),
                _ => None,
            },
        )
    }

    /// Each datagram of the run that feeds a block makes its decoder give what
    /// [`Receiver::on_datagram`] promises.
    pub open spec fn decodes(self, moves: Seq<Move>) -> bool
        decreases moves.len(),
    {
        moves.len() == 0 || {
            let w = self.after(moves.drop_last());
            &&& self.decodes(moves.drop_last())
            &&& moves.last() matches Move::Datagram(buf) ==> w.decodes_next(buf)
        }
    }

    /// What the run last handed out to be written as block `b`.
    pub open spec fn held(self, moves: Seq<Move>, b: u32) -> Option<Seq<u8>>
        decreases moves.len(),
    {
        if moves.len() == 0 {
            None
        } else {
            let before = self.held(moves.drop_last(), b);
            match moves.last() {
                Move::Datagram(buf) => match self.after(moves.drop_last()).step(buf).1 {
                    DeliveryView::Decoded { block, data } => if block == b {
                        Some(data)
                    } else {
                        before
                    },
                    _ => before,
                },
                _ => before,
            }
        }
    }

    /// What stands in `out` after a run that wrote what it was handed.
    pub open spec fn output(self, moves: Seq<Move>, out: Seq<u8>) -> Seq<u8>
        decreases moves.len(),
    {
        if moves.len() == 0 {
            out
        } else {
            let before = self.output(moves.drop_last(), out);
            match moves.last() {
                Move::Written(b) => match self.held(moves.drop_last(), b) {
                    Some(data) => stored(self.layout, before, b, data),
                    None => before,
                },
                _ => before,
            }
        }
    }

    /// Each block that the run wrote was handed out before.
    pub open spec fn writes_what_it_held(self, moves: Seq<Move>) -> bool
        decreases moves.len(),
    {
        moves.len() == 0 || {
            &&& self.writes_what_it_held(moves.drop_last())
            &&& moves.last() matches Move::Written(b) ==> self.held(moves.drop_last(), b) is Some
        }
    }
}

/// Over a run in which every datagram that feeds a block brings a packet of
/// that block of `file`, every block is fed by the file.
pub proof fn law_a_run_is_fed_by_the_file(v: ReceiverView, moves: Seq<Move>, file: Seq<u8>)
    requires
        v.fed_by(file),
        v.can_all(moves),
        v.carries(moves, file),
    ensures
        v.after(moves).fed_by(file),
        v.after(moves).layout == v.layout,
    decreases moves.len(),
{
    if moves.len() > 0 {
        let front = moves.drop_last();
        law_a_run_is_fed_by_the_file(v, front, file);
        let w = v.after(front);
        match moves.last() {
            Move::Datagram(buf) => match w.feeds(buf) {
                Some((b, p)) => {
                    lemma_fed_once_more(w, file, buf, b, p);
                },
                None => {
                    law_other_datagrams_feed_nothing(w, file, buf);
                },
            },
            _ => {},
        }
    }
}

/// Over a run in which every datagram that feeds a block brings a packet of
/// that block of `file`, whatever is handed out to be written is the file's
/// block.
pub proof fn law_a_run_decodes_the_file(
    v: ReceiverView,
    moves: Seq<Move>,
    file: Seq<u8>,
    b: u32,
)
    requires
        v.fed_by(file),
        v.layout.codable(),
        v.can_all(moves),
        v.carries(moves, file),
        v.decodes(moves),
    ensures
        v.held(moves, b) matches Some(data) ==> b < v.layout.num_blocks && data == v.layout.block(
            file,
            b as int,
        ),
    decreases moves.len(),
{
    if moves.len() > 0 {
        let front = moves.drop_last();
        law_a_run_decodes_the_file(v, front, file, b);
        law_a_run_is_fed_by_the_file(v, front, file);
        let w = v.after(front);
        if let Move::Datagram(buf) = moves.last() {
            if let Some((c, p)) = w.feeds(buf) {
                let decoded = match w.step(buf).1 {
                    DeliveryView::Decoded { block, data } => Some(data),
                    _ => None,
                };
                law_decodes_the_files_block(w, file, buf, c, p, decoded);
            }
        }
    }
}

/// All source packets are enough: over a run that began with nothing fed to
/// block `b`, once the packets that it was fed hold every source packet, the
/// block was handed out to be written.
pub proof fn law_all_source_packets_hand_out_the_block(
    v: ReceiverView,
    moves: Seq<Move>,
    b: u32,
)
    requires
        v.layout.wf(),
        v.layout.codable(),
        v.blocks.len() == v.layout.num_blocks,
        b < v.layout.num_blocks,
        v.blocks[b as int] == (BlockView::Pending { packets: Seq::empty() }),
        v.can_all(moves),
        v.decodes(moves),
        v.after(moves).blocks[b as int] matches BlockView::Pending { packets }
            && all_source_carried(
            v.layout.len(b as int) as u64,
            v.layout.symbol_size,
            packets,
        ),
    ensures
        v.held(moves, b) is Some,
    decreases moves.len(),
{
    let len = v.layout.len(b as int) as u64;
    let size = v.layout.symbol_size;
    v.layout.lemma_bounds(b as int);
    assert(one_source_block(len as nat, size));
    if moves.len() == 0 {
        lemma_ceil_div(len as nat, coded_size(size));
        assert(carried(Seq::<Seq<u8>>::empty(), 0));
    } else {
        let front = moves.drop_last();
        let w = v.after(front);
        law_each_block_is_acknowledged_once(v, front);
        let kept = w.moved(moves.last()).blocks[b as int] == w.blocks[b as int];
        if kept {
            law_all_source_packets_hand_out_the_block(v, front, b);
        } else {
            assert(moves.last() is Datagram);
            assert(w.feeds(moves.last()->Datagram_0) matches Some((c, p)) && c == b);
        }
    }
}

/// The file arrives: a run that began with no block done, was fed only packets
/// of `file`, wrote what it was handed, and has every block done, leaves the
/// file in the output, whatever stood there before.
pub proof fn law_the_file_arrives(
    v: ReceiverView,
    moves: Seq<Move>,
    file: Seq<u8>,
    out: Seq<u8>,
)
    requires
        v.fed_by(file),
        v.layout.codable(),
        forall|b: int| 0 <= b < v.blocks.len() ==> v.blocks[b] is Pending,
        v.can_all(moves),
        v.carries(moves, file),
        v.decodes(moves),
        v.writes_what_it_held(moves),
        forall|b: int| 0 <= b < v.blocks.len() ==> v.after(moves).blocks[b] is Done,
        out.len() == v.layout.file_size,
    ensures
        v.output(moves, out) == file,
{
    lemma_output_is_stored(v, moves, file, out);
    law_a_complete_receiver_has_the_file(v, moves, file, out);
}

proof fn lemma_output_is_stored(v: ReceiverView, moves: Seq<Move>, file: Seq<u8>, out: Seq<u8>)
    requires
        v.fed_by(file),
        v.layout.codable(),
        v.can_all(moves),
        v.carries(moves, file),
        v.decodes(moves),
        v.writes_what_it_held(moves),
    ensures
        v.output(moves, out) == stored_all(v.layout, file, out, writes(moves)),
    decreases moves.len(),
{
    if moves.len() > 0 {
        let front = moves.drop_last();
        lemma_output_is_stored(v, front, file, out);
        if let Move::Written(b) = moves.last() {
            law_a_run_decodes_the_file(v, front, file, b);
            assert(writes(moves).drop_last() =~= writes(front));
        }
    }
}

impl ReceiverView {
    /// The sequence numbers that a sealed plane accepted during a run.
    pub open spec fn accepted(self, moves: Seq<Move>) -> Seq<u64>
        decreases moves.len(),
    {
        if moves.len() == 0 {
            Seq::empty()
        } else {
            let before = self.accepted(moves.drop_last());
            let w = self.after(moves.drop_last());
            match moves.last() {
                Move::Datagram(buf) => if w.plane.opened(w.transfer_tag, buf) is Some {
                    before.push(wire_seq(buf))
                } else {
                    before
                },
                _ => before,
            }
        }
    }
}

/// A sealed receiver's report is a true share: over any run from its start it
/// counts no more datagrams than the span that it reports, and counts no
/// sequence number twice.
pub proof fn law_reports_do_not_exceed_the_span(v: ReceiverView, moves: Seq<Move>)
    requires
        v.plane matches RxView::Sealed { key, window } && window == WindowView::empty(),
        v.pkts == 0,
    ensures
        v.accepted(moves).no_duplicates(),
        v.after(moves).pkts <= v.accepted(moves).len(),
        v.after(moves).pkts > 0 ==> (v.after(moves).plane.highest() matches Some(h)
            && v.after(moves).pkts <= h + 1),
{
    lemma_accepted(v, moves);
    let seqs = v.accepted(moves);
    if seqs.len() > 0 {
        law_deliveries_fit_the_span(seqs);
    }
}

proof fn lemma_accepted(v: ReceiverView, moves: Seq<Move>)
    requires
        v.plane matches RxView::Sealed { key, window } && window == WindowView::empty(),
        v.pkts == 0,
    ensures
        delivered(v.accepted(moves)),
        v.after(moves).pkts <= v.accepted(moves).len(),
        v.after(moves).plane matches RxView::Sealed { key, window } && window
            == WindowView::empty().commit_all(v.accepted(moves)),
    decreases moves.len(),
{
    if moves.len() > 0 {
        let front = moves.drop_last();
        lemma_accepted(v, front);
        let w = v.after(front);
        if let Move::Datagram(buf) = moves.last() {
            if w.plane.opened(w.transfer_tag, buf) is Some {
                let seqs = v.accepted(front);
                assert(seqs.push(wire_seq(buf)).drop_last() =~= seqs);
            }
        }
    }
}

/// Every datagram that is opened to a packet is counted, and no other: whatever
/// the state of its block, and whether the file has such a block or not. A
/// payload of fewer than four bytes is no packet. Those of a block that is done
/// count as late besides.
pub proof fn law_every_packet_is_counted(v: ReceiverView, buf: Seq<u8>)
    ensures
        ({
            let w = v.step(buf).0;
            let packet = match v.plane.opened(v.transfer_tag, buf) {
                Some((b, p)) => p.len() >= 4,
                None => false,
            };
            &&& packet ==> w.pkts == v.pkts + 1
            &&& !packet ==> w.pkts == v.pkts
            &&& v.plane.opened(v.transfer_tag, buf) matches Some((b, p)) ==> {
                let late = p.len() >= 4 && b < v.layout.num_blocks && v.blocks[b as int] is Done;
                &&& late ==> w.late == v.late + 1
                &&& !late ==> w.late == v.late
            }
            &&& !packet ==> w.late == v.late
        }),
{
}

impl ReceiverView {
    /// The datagrams of a run that were opened to a packet.
    pub open spec fn packets_in(self, moves: Seq<Move>) -> nat
        decreases moves.len(),
    {
        if moves.len() == 0 {
            0
        } else {
            let w = self.after(moves.drop_last());
            self.packets_in(moves.drop_last()) + match moves.last() {
                Move::Datagram(buf) => match w.plane.opened(self.transfer_tag, buf) {
                    Some((b, p)) => if p.len() >= 4 {
                        1nat
                    } else {
                        0
                    },
                    None => 0,
                },
                _ => 0,
            }
        }
    }
}

/// The packet count is exact: over any run it grows by the number of datagrams
/// that were opened to a packet, whatever became of them.
pub proof fn law_the_packet_count_is_exact(v: ReceiverView, moves: Seq<Move>)
    ensures
        v.after(moves).pkts == v.pkts + v.packets_in(moves),
        v.after(moves).transfer_tag == v.transfer_tag,
    decreases moves.len(),
{
    if moves.len() > 0 {
        law_the_packet_count_is_exact(v, moves.drop_last());
        if let Move::Datagram(buf) = moves.last() {
            law_every_packet_is_counted(v.after(moves.drop_last()), buf);
        }
    }
}

/// What becomes of a datagram. It is dropped exactly where it does not open to
/// a packet, stray where the file has no such block, late where the block is
/// done, and malformed where the block's decoder cannot take it. Every other is
/// fed to its block's decoder, and to no other: that block has one packet more,
/// at the end, and is handed out exactly where the decoder then gives its
/// bytes. In no other case does any block change.
pub proof fn law_a_packet_goes_to_its_block(v: ReceiverView, buf: Seq<u8>)
    ensures
        ({
            let (w, delivery) = v.step(buf);
            match v.plane.opened(v.transfer_tag, buf) {
                None => delivery is Dropped && w.blocks == v.blocks,
                Some((b, p)) => if p.len() < 4 {
                    delivery is Dropped && w.blocks == v.blocks
                } else if b >= v.layout.num_blocks {
                    delivery is Stray && w.blocks == v.blocks
                } else {
                    match v.blocks[b as int] {
                        BlockView::Done => delivery is Late && w.blocks == v.blocks,
                        BlockView::Pending { packets } => {
                            let len = v.layout.len(b as int) as u64;
                            let size = v.layout.symbol_size;
                            let now = packets.push(p);
                            if !takes(len, size, now) {
                                delivery is Malformed && w.blocks == v.blocks
                            } else {
                                &&& w.blocks == v.blocks.update(
                                    b as int,
                                    BlockView::Pending { packets: now },
                                )
                                &&& match raptorq_decoded(len, size, now) {
                                    Some(data) => delivery == (DeliveryView::Decoded {
                                        block: b,
                                        data,
                                    }),
                                    None => delivery is Fed,
                                }
                            }
                        },
                    }
                },
            }
        }),
{
}

/// A datagram moves the plane as the plane alone says, and leaves the layout,
/// the tag, the acknowledgements and the ticks as they are.
pub proof fn law_a_datagram_leaves_the_rest(v: ReceiverView, buf: Seq<u8>)
    ensures
        ({
            let w = v.step(buf).0;
            &&& w.plane == v.plane.after(v.transfer_tag, buf)
            &&& w.layout == v.layout
            &&& w.transfer_tag == v.transfer_tag
            &&& w.acks == v.acks
            &&& w.ticks == v.ticks
        }),
{
}

/// A written block is done and waits to be acknowledged, after those that wait
/// already. No other block changes, nor does any count.
pub proof fn law_a_written_block_is_done(v: ReceiverView, b: u32)
    requires
        b < v.blocks.len(),
    ensures
        ({
            let w = v.wrote(b);
            &&& w.blocks.len() == v.blocks.len()
            &&& w.blocks[b as int] is Done
            &&& forall|c: int|
                0 <= c < v.blocks.len() && c != b ==> #[trigger] w.blocks[c] == v.blocks[c]
            &&& w.acks == v.acks.push(b)
            &&& w.pkts == v.pkts && w.late == v.late && w.ticks == v.ticks
            &&& w.plane == v.plane && w.layout == v.layout && w.transfer_tag == v.transfer_tag
        }),
{
}

/// Counting what is done: nothing has none, one more block counts for one
/// exactly if it is done, and a block that becomes done counts for one. So the
/// count is that of all blocks only where all are done.
pub proof fn law_the_count_is_of_what_is_done(s: Seq<BlockView>, b: BlockView, i: int)
    requires
        0 <= i < s.len(),
        !(s[i] is Done),
    ensures
        count_done(Seq::<BlockView>::empty()) == 0,
        count_done(s.push(b)) == count_done(s) + if b is Done {
            1int
        } else {
            0
        },
        count_done(s.update(i, BlockView::Done)) == count_done(s) + 1,
        count_done(s) <= s.len(),
        count_done(s) == s.len() <==> forall|j: int| 0 <= j < s.len() ==> s[j] is Done,
{
    assert(s.push(b).drop_last() =~= s);
    lemma_done_update(s, i, BlockView::Done);
    lemma_done_bound(s);
}

/// A greeting is accepted exactly where it is one of version 2, and then the
/// transfer has its tag. One of another version is refused with a failed
/// verdict for the peer and a protocol error, which both name the versions; any
/// other frame is a protocol error that names it.
pub proof fn law_only_this_version_is_greeted(frame: Frame, g: Greeting)
    requires
        greeted(frame, g),
    ensures
        g is Accepted <==> (frame matches Frame::Hello { version, transfer_tag } && version == 2),
        frame matches Frame::Hello { version, transfer_tag } ==> {
            &&& version == 2 ==> g == (Greeting::Accepted { transfer_tag })
            &&& version != 2 ==> {
                let text = "version mismatch: peer "@ + decimal(version as nat) + ", ours "@
                    + decimal(2);
                &&& g matches Greeting::Refused { reply, error }
                &&& reply matches Frame::Done { ok, error: told }
                &&& !ok
                &&& told matches Some(m)
                &&& m@ == text
                &&& error matches Error::Protocol(n)
                &&& n@ == text
            }
        },
        !(frame is Hello) ==> (g matches Greeting::Broken(Error::Protocol(m)) && m@ == "expected "@
            + "Hello"@ + ", got "@ + frame.shown()),
{
}

/// A manifest is taken exactly where no size is zero and its blocks, of which
/// all but the last are full and the last is not empty, make up the file. The
/// layout is then the manifest's. Everything else is a protocol error.
pub proof fn law_only_a_sound_manifest_is_taken(frame: Frame, r: Result<Incoming, Error>)
    requires
        described(frame, r),
    ensures
        !(frame is Manifest) ==> (r matches Err(e) && e is Protocol),
        frame matches Frame::Manifest {
            file_name,
            file_size,
            sha256,
            block_size,
            symbol_size,
            num_blocks,
        } ==> {
            let sound = file_size > 0 && block_size > 0 && symbol_size > 0 && (num_blocks - 1)
                * block_size < file_size <= num_blocks * block_size;
            &&& r is Ok <==> sound
            &&& !sound ==> (r matches Err(e) && e is Protocol)
            &&& r matches Ok(inc) ==> {
                &&& inc.file_name == file_name
                &&& inc.sha256 == sha256
                &&& inc.layout == (Layout { file_size, block_size, symbol_size, num_blocks })
            }
        },
{
    if let Frame::Manifest { file_name, file_size, sha256, block_size, symbol_size, num_blocks } =
        frame {
        if file_size > 0 && block_size > 0 && symbol_size > 0 {
            let q = ceil_div(file_size as nat, block_size as nat);
            lemma_ceil_div(file_size as nat, block_size as nat);
            assert(q == num_blocks <==> (num_blocks - 1) * block_size < file_size <= num_blocks
                * block_size) by (nonlinear_arith)
                requires
                    block_size > 0,
                    file_size <= block_size * q,
                    block_size * q < file_size + block_size,
            ;
        }
    }
}

/// The blocks of a manifest are counted only where no size is zero, and can be
/// where a file of this size has no more blocks than 32 bits count.
pub proof fn law_what_can_be_counted(frame: Frame)
    ensures
        frame matches Frame::Manifest {
            file_name,
            file_size,
            sha256,
            block_size,
            symbol_size,
            num_blocks,
        } ==> {
            &&& block_size == 0 || symbol_size == 0 ==> countable(frame)
            &&& block_size > 0 && symbol_size > 0 ==> (countable(frame) <==> file_size <= u32::MAX
                * block_size)
        },
        !(frame is Manifest) ==> countable(frame),
{
    if let Frame::Manifest { file_name, file_size, sha256, block_size, symbol_size, num_blocks } =
        frame {
        if block_size > 0 {
            let q = ceil_div(file_size as nat, block_size as nat);
            lemma_ceil_div(file_size as nat, block_size as nat);
            assert(q <= u32::MAX <==> file_size <= u32::MAX * block_size) by (nonlinear_arith)
                requires
                    block_size > 0,
                    file_size <= block_size * q,
                    block_size * q < file_size + block_size,
            ;
        }
    }
}

/// The verdict is good exactly where the digests are the same; a bad one names
/// both, in the complaint, in the report and in the receiver's error alike.
pub proof fn law_the_verdict_is_on_the_digests(
    expected: Seq<char>,
    actual: Seq<char>,
    error: Option<String>,
    f: Frame,
    r: Result<(), Error>,
)
    requires
        judged(expected, actual, error),
        reported(error, f),
        concluded(error, r),
    ensures
        expected == actual ==> error is None && f == (Frame::Done { ok: true, error: None }) && r
            is Ok,
        expected != actual ==> {
            let text = "sha256 mismatch: expected "@ + expected + ", got "@ + actual;
            &&& error matches Some(m)
            &&& m@ == text
            &&& f matches Frame::Done { ok, error: told }
            &&& !ok
            &&& told matches Some(n)
            &&& n@ == text
            &&& r matches Err(Error::Transfer(t))
            &&& t@ == text
        },
{
}

/// There is a report exactly once a packet was counted; it says the exact count
/// and the plane's span, which reaches to the highest number accepted.
pub proof fn law_a_report_is_what_was_counted(v: ReceiverView, t_ms: u64)
    requires
        v.pkts <= u64::MAX,
        v.plane.highest() != Some(u64::MAX),
    ensures
        v.report(t_ms) is Some <==> v.pkts > 0,
        v.report(t_ms) matches Some((pkts, span, t)) ==> {
            &&& pkts == v.pkts
            &&& t == t_ms
            &&& span is Some <==> v.plane.highest() is Some
            &&& span matches Some(n) ==> (v.plane.highest() matches Some(h) && n == h + 1)
        },
{
}

} // verus!
