//! The sender's decisions during a transfer, as a state machine.
//!
//! [`Sender::next`] takes what happened and says what to do. Round zero sends
//! every block's source packets and some repair. Each later round sends fresh
//! repair for the blocks that are still unacknowledged. After a round the
//! sender lets acknowledgements settle before it spends more repair. Once
//! every block is acknowledged, or the receiver's socket is gone, it waits
//! for the receiver's verdict.

use vstd::prelude::*;
use crate::blocks::{ceil_div, div_ceil, lemma_ceil_div, Layout};
use crate::datagram::{TxPlane, TxView};
use crate::error::Error;
use crate::fec::{all_source_carried, carried, coded_size, coded_symbol_size, coded_symbols};
use crate::fec::{one_source_block, packet_of, packets_of, raptorq_packet, well_formed};
use crate::fec::{decoding, lemma_one_source_block, payload_id};
use crate::fec::{repair_payloads, source_payloads, EncoderCache, ESI_LIMIT, PAYLOAD_ID_LEN};
use crate::send::{count_set, law_pending_is_what_is_unacked, law_unset_increases};
use crate::send::{lemma_count_bound, unset, Acks, Feedback};
use crate::spray::{advanced, concat, fill, fill_authentic, fill_batch, lasts, law_batch_is_even};
use crate::spray::{law_fill_counts, piece};
use crate::spray::{lemma_advanced_seq, lemma_advanced_sum, lemma_advanced_wire_len, views};
use crate::spray::{Filled, MAX_PAYLOAD};
use crate::text::join;
use crate::udp::{batch_room, max_segments};

verus! {

/// Least repair packets per block in round zero.
pub const FIRST_REPAIR: u32 = 2;

/// Least repair packets per block in a later round.
pub const LATER_REPAIR: u32 = 8;

/// What the sender waits for.
#[derive(Debug, Clone, Copy, PartialEq, Eq, Structural)]
pub enum Phase {
    /// The feedback to be drained before a round.
    Top,
    /// The receiver's verdict.
    Waiting,
    /// The repair count for the block at this place in the round.
    Sizing { pos: usize },
    /// A batch of that block to be sent.
    Flushing { pos: usize },
    /// The feedback to be drained after that block.
    AfterBlock { pos: usize },
    /// Time to pass; this many blocks were acknowledged when it began.
    Settling { before: u32 },
    /// The feedback to be drained after that time.
    SettleDrain { before: u32 },
    /// Nothing: the transfer is over.
    Over,
}

/// What happened.
pub enum Event {
    /// All feedback that had come was handed to [`Sender::on_feedback`].
    Drained,
    /// While the verdict was awaited this feedback came, or none in time.
    Reply(Option<Feedback>),
    /// The loss estimate asks for this many repair packets.
    Sized(u32),
    /// The batch was sent; `gone` if the receiver's socket refused it.
    Flushed { gone: bool },
    /// The settling time passed.
    Slept,
}

/// What to do next.
pub enum Action {
    /// Hand all feedback that has come to [`Sender::on_feedback`].
    Drain,
    /// Wait ten seconds for feedback.
    AwaitDone,
    /// Say how much repair this block needs in this round.
    Size { block: u32, source_symbols: u32, round: u32 },
    /// Send the batch, and keep the pace.
    Flush,
    /// Report the round, then let feedback settle for fifty milliseconds.
    RoundDone,
    /// Let feedback settle for fifty milliseconds more.
    Sleep,
    /// Report the receiver's verdict.
    Finish { ok: bool, error: Option<String> },
    /// Give the transfer up.
    Fail(Error),
}

/// What an action stands for.
pub enum ActionView {
    Drain,
    AwaitDone,
    Size { block: u32, source_symbols: nat, round: u32 },
    Flush,
    RoundDone,
    Sleep,
    Finish { ok: bool, error: Option<String> },
    Fail { message: Seq<char> },
}

impl View for Action {
    type V = ActionView;

    open spec fn view(&self) -> ActionView {
        match self {
            Action::Drain => ActionView::Drain,
            Action::AwaitDone => ActionView::AwaitDone,
            Action::Size { block, source_symbols, round } => ActionView::Size {
                block: *block,
                source_symbols: *source_symbols as nat,
                round: *round,
            },
            Action::Flush => ActionView::Flush,
            Action::RoundDone => ActionView::RoundDone,
            Action::Sleep => ActionView::Sleep,
            Action::Finish { ok, error } => ActionView::Finish { ok: *ok, error: *error },
            Action::Fail(e) => ActionView::Fail { message: e.shown() },
        }
    }
}

/// What a sender stands for.
#[verifier::ext_equal]
pub struct SenderView {
    pub layout: Layout,
    pub data: Seq<u8>,
    pub transfer_tag: u64,
    pub plane: TxView,
    pub drop_below: u64,
    pub rng: u64,
    pub max_segs: nat,
    pub acked: Seq<bool>,
    /// Next repair packet of each block, counted from its first.
    pub next_repair: Seq<u32>,
    pub packets_sent: nat,
    pub bytes_sent: nat,
    pub round: u32,
    pub receiver_gone: bool,
    pub phase: Phase,
    /// The blocks of this round.
    pub pending: Seq<u32>,
    /// The packets of the current block that were not taken yet.
    pub queue: Seq<Seq<u8>>,
    /// The batch to be sent.
    pub batch: Seq<u8>,
}

/// The repair packets to send where the loss estimate asks for `asked`.
pub open spec fn repair_count(round: u32, asked: u32) -> u32 {
    let least = if round == 0 {
        FIRST_REPAIR
    } else {
        LATER_REPAIR
    };
    if asked < least {
        least
    } else {
        asked
    }
}

/// First place from `pos` on whose block is not acknowledged.
pub open spec fn next_unacked(pending: Seq<u32>, acked: Seq<bool>, pos: int) -> int
    decreases pending.len() - pos,
{
    if pos >= pending.len() || !acked[pending[pos] as int] {
        pos
    } else {
        next_unacked(pending, acked, pos + 1)
    }
}

impl SenderView {
    /// Bytes in one datagram.
    pub open spec fn seg(self) -> nat {
        self.plane.wire_len(PAYLOAD_ID_LEN as nat + coded_size(self.layout.symbol_size))
    }

    /// Source packets of block `b`.
    pub open spec fn sources(self, b: u32) -> nat {
        coded_symbols(self.layout.len(b as int) as nat, self.layout.symbol_size)
    }

    /// The packets for block `b` in this round, `count` of them repair.
    pub open spec fn packets(self, b: u32, count: u32) -> Seq<Seq<u8>> {
        let object = self.layout.block(self.data, b as int);
        let size = self.layout.symbol_size;
        let k = self.sources(b);
        let first = k + self.next_repair[b as int];
        let repair = Seq::new(count as nat, |i: int| raptorq_packet(object, size, first + i));
        if self.round == 0 {
            Seq::new(k, |i: int| raptorq_packet(object, size, i)) + repair
        } else {
            repair
        }
    }

    /// The encoding symbol ids and the accounts have room for one more block
    /// with `asked` repair packets.
    pub open spec fn room(self, asked: u32) -> bool {
        self.phase matches Phase::Sizing { pos } ==> {
            let b = self.pending[pos as int];
            &&& self.sources(b) + self.next_repair[b as int] + repair_count(self.round, asked)
                <= ESI_LIMIT
            &&& self.packets_sent + ESI_LIMIT <= u64::MAX
            &&& self.bytes_sent + ESI_LIMIT * self.seg() <= u64::MAX
        }
    }

    /// The event is one that the sender waits for.
    pub open spec fn expects(self, event: Event) -> bool {
        match event {
            Event::Drained => self.phase is Top || self.phase is AfterBlock
                || self.phase is SettleDrain,
            Event::Reply(_) => self.phase is Waiting,
            Event::Sized(asked) => self.phase is Sizing && self.room(asked),
            Event::Flushed { .. } => self.phase is Flushing,
            Event::Slept => self.phase is Settling,
        }
    }

    /// The round ends.
    pub open spec fn end_round(self) -> (SenderView, ActionView) {
        (
            SenderView {
                round: (self.round + 1) as u32,
                phase: Phase::Settling { before: count_set(self.acked) as u32 },
                queue: Seq::empty(),
                ..self
            },
            ActionView::RoundDone,
        )
    }

    /// Go on with the first unacknowledged block from `pos` on.
    pub open spec fn to_block(self, pos: int) -> (SenderView, ActionView) {
        let p = next_unacked(self.pending, self.acked, pos);
        if p >= self.pending.len() {
            self.end_round()
        } else {
            let b = self.pending[p];
            (
                SenderView { phase: Phase::Sizing { pos: p as usize }, ..self },
                ActionView::Size {
                    block: b,
                    source_symbols: self.layout.symbols(b as int),
                    round: self.round,
                },
            )
        }
    }

    /// What the next batch takes off the queue.
    pub open spec fn filled(self, pos: usize) -> Filled {
        fill(
            self.transfer_tag,
            self.pending[pos as int],
            self.drop_below,
            self.plane,
            self.rng,
            self.queue,
            self.max_segs,
        )
    }

    /// Every datagram of the next batch is one that a holder of the key
    /// accepts.
    pub open spec fn filled_authentic(self, pos: usize) -> bool {
        fill_authentic(
            self.transfer_tag,
            self.pending[pos as int],
            self.drop_below,
            self.plane,
            self.rng,
            self.queue,
            self.max_segs,
        )
    }

    /// Fill a batch from the queue; with nothing to send the block is done.
    pub open spec fn pump(self, pos: usize) -> (SenderView, ActionView) {
        let f = self.filled(pos);
        let v = SenderView {
            plane: f.plane,
            rng: f.rng,
            packets_sent: self.packets_sent + f.taken,
            bytes_sent: self.bytes_sent + f.grams.len() * self.seg(),
            queue: self.queue.skip(f.taken as int),
            batch: concat(f.grams),
            ..self
        };
        if f.grams.len() == 0 {
            (SenderView { phase: Phase::AfterBlock { pos }, ..v }, ActionView::Drain)
        } else {
            (SenderView { phase: Phase::Flushing { pos }, ..v }, ActionView::Flush)
        }
    }

    /// The block's packets are queued.
    pub open spec fn queued(self, pos: usize, asked: u32) -> SenderView {
        let b = self.pending[pos as int];
        let count = repair_count(self.round, asked);
        SenderView {
            queue: self.packets(b, count),
            next_repair: self.next_repair.update(
                b as int,
                (self.next_repair[b as int] + count) as u32,
            ),
            ..self
        }
    }

    /// The packets queued for the block at `pos` are such as a decoder takes,
    /// and in round zero all source packets are among them.
    pub open spec fn ready(self, pos: usize, asked: u32) -> bool {
        let b = self.pending[pos as int];
        let queue = self.queued(pos, asked).queue;
        &&& forall|i: int|
            0 <= i < queue.len() ==> well_formed(
                self.layout.len(b as int) as nat,
                self.layout.symbol_size,
                #[trigger] queue[i],
            )
        &&& self.round == 0 ==> all_source_carried(
            self.layout.len(b as int) as u64,
            self.layout.symbol_size,
            queue,
        )
    }

    /// The state from which an event makes the sender fill a batch, if it
    /// does.
    pub open spec fn sprays(self, event: Event) -> Option<(SenderView, usize)> {
        match (event, self.phase) {
            (Event::Sized(asked), Phase::Sizing { pos }) => Some((self.queued(pos, asked), pos)),
            (Event::Flushed { gone: false }, Phase::Flushing { pos }) => Some(
                (SenderView { batch: Seq::empty(), receiver_gone: false, ..self }, pos),
            ),
            _ => None,
        }
    }

    /// What the sender does about an event.
    pub open spec fn step(self, event: Event) -> (SenderView, ActionView) {
        match event {
            Event::Drained => match self.phase {
                Phase::AfterBlock { pos } => self.to_block(pos + 1),
                Phase::SettleDrain { before } => {
                    let now = count_set(self.acked);
                    if now == before || now == self.layout.num_blocks {
                        (SenderView { phase: Phase::Top, ..self }, ActionView::Drain)
                    } else {
                        (
                            SenderView { phase: Phase::Settling { before: now as u32 }, ..self },
                            ActionView::Sleep,
                        )
                    }
                },
                _ => {
                    let v = SenderView { pending: unset(self.acked, self.acked.len()), ..self };
                    if v.pending.len() == 0 || v.receiver_gone {
                        (SenderView { phase: Phase::Waiting, ..v }, ActionView::AwaitDone)
                    } else {
                        v.to_block(0)
                    }
                },
            },
            Event::Reply(Some(Feedback::Done { ok, error })) => (
                SenderView { phase: Phase::Over, ..self },
                ActionView::Finish { ok, error },
            ),
            Event::Reply(Some(_)) => (
                SenderView { phase: Phase::Top, ..self },
                ActionView::Drain,
            ),
            Event::Reply(None) => (
                SenderView { phase: Phase::Over, ..self },
                ActionView::Fail { message: "protocol: "@ + "receiver never sent Done"@ },
            ),
            Event::Sized(asked) => match self.phase {
                Phase::Sizing { pos } => self.queued(pos, asked).pump(pos),
                _ => (self, ActionView::Drain),
            },
            Event::Flushed { gone } => match self.phase {
                Phase::Flushing { pos } => {
                    let v = SenderView { batch: Seq::empty(), receiver_gone: gone, ..self };
                    if gone {
                        v.end_round()
                    } else {
                        v.pump(pos)
                    }
                },
                _ => (self, ActionView::Drain),
            },
            Event::Slept => match self.phase {
                Phase::Settling { before } => (
                    SenderView { phase: Phase::SettleDrain { before }, ..self },
                    ActionView::Drain,
                ),
                _ => (self, ActionView::Drain),
            },
        }
    }
}

/// The sender of one transfer.
pub struct Sender {
    layout: Layout,
    data: Vec<u8>,
    transfer_tag: u64,
    plane: TxPlane,
    seg: usize,
    max_segs: usize,
    drop_below: u64,
    rng: u64,
    acks: Acks,
    next_repair: Vec<u32>,
    packets_sent: u64,
    bytes_sent: u64,
    round: u32,
    receiver_gone: bool,
    phase: Phase,
    pending: Vec<u32>,
    queue: Vec<Vec<u8>>,
    taken: usize,
    batch: Vec<u8>,
    encoders: EncoderCache,
}

impl View for Sender {
    type V = SenderView;

    closed spec fn view(&self) -> SenderView {
        SenderView {
            layout: self.layout,
            data: self.data@,
            transfer_tag: self.transfer_tag,
            plane: self.plane@,
            drop_below: self.drop_below,
            rng: self.rng,
            max_segs: self.max_segs as nat,
            acked: self.acks@,
            next_repair: self.next_repair@,
            packets_sent: self.packets_sent as nat,
            bytes_sent: self.bytes_sent as nat,
            round: self.round,
            receiver_gone: self.receiver_gone,
            phase: self.phase,
            pending: self.pending@,
            queue: views(self.queue@, self.taken as int),
            batch: self.batch@,
        }
    }
}

impl Sender {
    /// The state fits the file and its layout, the accounts have room for
    /// what is queued, and only a sender that waits for a batch to be sent
    /// holds one.
    pub closed spec fn wf(self) -> bool {
        &&& self.layout.wf()
        &&& self.layout.codable()
        &&& self.data@.len() == self.layout.file_size
        &&& self.seg == self@.seg()
        &&& self.max_segs >= 1
        &&& self.acks@.len() == self.layout.num_blocks
        &&& self.next_repair@.len() == self.layout.num_blocks
        &&& forall|i: int|
            0 <= i < self.pending@.len() ==> #[trigger] self.pending@[i] < self.layout.num_blocks
        &&& self.taken <= self.queue@.len()
        &&& forall|i: int|
            0 <= i < self.queue@.len() ==> (#[trigger] self.queue@[i])@.len() <= MAX_PAYLOAD
        &&& self.packets_sent + (self.queue@.len() - self.taken) <= u64::MAX
        &&& self.bytes_sent + (self.queue@.len() - self.taken) * self.seg <= u64::MAX
        &&& !(self.phase is Flushing) ==> self.batch@.len() == 0
        &&& match self.phase {
            Phase::Sizing { pos } => pos < self.pending@.len(),
            Phase::Flushing { pos } => pos < self.pending@.len(),
            Phase::AfterBlock { pos } => pos < self.pending@.len(),
            _ => true,
        }
        &&& self.encoders.wf(self.layout, self.data@)
    }

    /// A sender that has sent nothing and is about to drain feedback.
    /// `drop_below` is the share of datagrams to lose on purpose, in parts of
    /// two to the 53rd power.
    pub fn new(
        data: Vec<u8>,
        layout: Layout,
        plane: TxPlane,
        transfer_tag: u64,
        drop_below: u64,
    ) -> (s: Self)
        requires
            layout.wf(),
            layout.codable(),
            data@.len() == layout.file_size,
        ensures
            s.wf(),
            s@.shaped(),
            s@ == (SenderView {
                layout,
                data: data@,
                transfer_tag,
                plane: plane@,
                drop_below,
                rng: transfer_tag | 1,
                max_segs: batch_room(s@.seg()),
                acked: Seq::new(layout.num_blocks as nat, |i: int| false),
                next_repair: Seq::new(layout.num_blocks as nat, |i: int| 0u32),
                packets_sent: 0,
                bytes_sent: 0,
                round: 0,
                receiver_gone: false,
                phase: Phase::Top,
                pending: Seq::empty(),
                queue: Seq::empty(),
                batch: Seq::empty(),
            }),
    {
        let payload_len: usize = PAYLOAD_ID_LEN + coded_symbol_size(layout.symbol_size) as usize;
        let seg: usize = plane.wire_len(payload_len);
        let max_segs: usize = max_segments(seg);
        let mut next_repair: Vec<u32> = Vec::new();
        let mut i: u32 = 0;
        while i < layout.num_blocks
            invariant
                i <= layout.num_blocks,
                next_repair@.len() == i,
                forall|j: int| 0 <= j < i ==> next_repair@[j] == 0,
            decreases layout.num_blocks - i,
        {
            next_repair.push(0);
            i = i + 1;
        }
        let s = Sender {
            layout,
            data,
            transfer_tag,
            plane,
            seg,
            max_segs,
            drop_below,
            rng: transfer_tag | 1,
            acks: Acks::new(layout.num_blocks),
            next_repair,
            packets_sent: 0,
            bytes_sent: 0,
            round: 0,
            receiver_gone: false,
            phase: Phase::Top,
            pending: Vec::new(),
            queue: Vec::new(),
            taken: 0,
            batch: Vec::new(),
            encoders: EncoderCache::new(),
        };
        proof {
            assert(s@.next_repair =~= Seq::new(layout.num_blocks as nat, |i: int| 0u32));
            assert(s@.queue =~= Seq::<Seq<u8>>::empty());
            assert(s@.pending =~= Seq::<u32>::empty());
            assert(s@.batch =~= Seq::<u8>::empty());
            assert(0 * s.seg == 0) by (nonlinear_arith);
        }
        s
    }

    /// End the round.
    fn end_round(&mut self) -> (action: Action)
        requires
            old(self).wf(),
            old(self)@.batch.len() == 0,
            old(self)@.round < u32::MAX,
        ensures
            final(self).wf(),
            (final(self)@, action@) == old(self)@.end_round(),
    {
        proof {
            assert(0 <= (self.queue@.len() - self.taken) * self.seg) by (nonlinear_arith)
                requires
                    self.queue@.len() >= self.taken,
            ;
            assert(0 * self.seg == 0) by (nonlinear_arith);
        }
        self.round = self.round + 1;
        self.queue = Vec::new();
        self.taken = 0;
        self.phase = Phase::Settling { before: self.acks.count() };
        assert(self@.queue =~= Seq::<Seq<u8>>::empty());
        Action::RoundDone
    }

    /// Go on with the first unacknowledged block from `pos` on.
    fn to_block(&mut self, pos: usize) -> (action: Action)
        requires
            old(self).wf(),
            pos <= old(self)@.pending.len(),
            old(self)@.batch.len() == 0,
            old(self)@.round < u32::MAX,
        ensures
            final(self).wf(),
            (final(self)@, action@) == old(self)@.to_block(pos as int),
    {
        let n: usize = self.pending.len();
        let mut p: usize = pos;
        while p < n && self.acks.is_acked(self.pending[p])
            invariant
                self.wf(),
                n == self.pending@.len(),
                pos <= p <= n,
                next_unacked(self.pending@, self.acks@, pos as int) == next_unacked(
                    self.pending@,
                    self.acks@,
                    p as int,
                ),
            decreases n - p,
        {
            p = p + 1;
        }
        if p >= n {
            return self.end_round();
        }
        let block: u32 = self.pending[p];
        self.phase = Phase::Sizing { pos: p };
        Action::Size {
            block,
            source_symbols: self.layout.source_symbols(block),
            round: self.round,
        }
    }

    /// Queue the packets of the block at `pos`.
    fn queue_block(&mut self, pos: usize, asked: u32)
        requires
            old(self).wf(),
            old(self).phase == (Phase::Sizing { pos }),
            old(self)@.room(asked),
        ensures
            final(self).wf(),
            final(self)@ == old(self)@.queued(pos, asked),
            old(self)@.ready(pos, asked),
    {
        let b: u32 = self.pending[pos];
        let least: u32 = if self.round == 0 {
            FIRST_REPAIR
        } else {
            LATER_REPAIR
        };
        let count: u32 = if asked < least {
            least
        } else {
            asked
        };
        let start: u32 = self.next_repair[b as usize];
        let ghost size = self.layout.symbol_size;
        let ghost k = self@.sources(b);
        proof {
            self.layout.lemma_bounds(b as int);
            lemma_one_source_block(self.layout.len(b as int) as nat, size);
        }
        let encoder = self.encoders.get_encoder(b, &self.layout, self.data.as_slice());
        let mut repair = repair_payloads(encoder, start, count);
        let mut queue: Vec<Vec<u8>> = if self.round == 0 {
            source_payloads(encoder)
        } else {
            Vec::new()
        };
        queue.append(&mut repair);
        self.queue = queue;
        self.taken = 0;
        self.next_repair.set(b as usize, start + count);
        proof {
            let queued = old(self)@.packets(b, count);
            assert(self@.queue =~= queued);
            assert forall|i: int| 0 <= i < queued.len() implies well_formed(
                self.layout.len(b as int) as nat,
                size,
                #[trigger] queued[i],
            ) by {
                assert(queued[i] == self.queue@[i]@);
                assert(queued[i].subrange(0, 4)[0] == 0);
            }
            if self.round == 0 {
                assert forall|esi: int| 0 <= esi < k implies #[trigger] carried(queued, esi) by {
                    assert(queued[esi] == self.queue@[esi]@);
                    assert(queued[esi].subrange(0, 4) == payload_id(esi));
                }
            }
            assert(self.queue@.len() <= ESI_LIMIT);
            assert(self.queue@.len() * self.seg <= ESI_LIMIT * self.seg) by (nonlinear_arith)
                requires
                    self.queue@.len() <= ESI_LIMIT,
            ;
        }
    }

    /// Fill a batch from the queue; with nothing to send the block is done.
    fn pump(&mut self, pos: usize) -> (action: Action)
        requires
            old(self).wf(),
            pos < old(self)@.pending.len(),
            old(self)@.batch.len() == 0,
        ensures
            final(self).wf(),
            (final(self)@, action@) == old(self)@.pump(pos),
            old(self)@.filled_authentic(pos),
    {
        let b: u32 = self.pending[pos];
        let ghost left = self.queue@.len() - self.taken;
        let (taken, segs) = fill_batch(
            &mut self.plane,
            &mut self.rng,
            self.drop_below,
            self.transfer_tag,
            b,
            &self.queue,
            self.taken,
            self.max_segs,
            &mut self.batch,
        );
        proof {
            assert(segs * self.seg + (left - taken) * self.seg <= left * self.seg)
                by (nonlinear_arith)
                requires
                    segs <= taken,
            ;
            assert(0 <= (left - taken) * self.seg) by (nonlinear_arith)
                requires
                    taken <= left,
            ;
            law_fill_counts(
                self.transfer_tag,
                b,
                self.drop_below,
                old(self)@.plane,
                old(self)@.rng,
                old(self)@.queue,
                self.max_segs as nat,
            );
            lemma_advanced_wire_len(
                old(self)@.plane,
                taken as nat,
                PAYLOAD_ID_LEN as nat + self.layout.symbol_size as nat,
            );
        }
        assert(self.queue@.len() == self.queue.len());
        self.taken = self.taken + taken;
        self.packets_sent = self.packets_sent + taken as u64;
        self.bytes_sent = self.bytes_sent + segs as u64 * self.seg as u64;
        proof {
            assert(self@.queue =~= old(self)@.queue.skip(taken as int));
        }
        if segs == 0 {
            self.phase = Phase::AfterBlock { pos };
            Action::Drain
        } else {
            self.phase = Phase::Flushing { pos };
            Action::Flush
        }
    }

    /// Take an event and say what to do next. The accounts do not overflow
    /// while [`Sender::has_room`] holds, and the rounds are counted in 32
    /// bits.
    pub fn next(&mut self, event: Event) -> (action: Action)
        requires
            old(self).wf(),
            old(self)@.expects(event),
            old(self)@.round < u32::MAX,
        ensures
            final(self).wf(),
            final(self)@ == old(self)@.step(event).0,
            action@ == old(self)@.step(event).1,
            old(self)@.sprays(event) matches Some((v, pos)) ==> v.filled_authentic(pos),
            event matches Event::Sized(asked) ==> (old(self)@.phase matches Phase::Sizing { pos }
                ==> old(self)@.ready(pos, asked)),
    {
        match event {
            Event::Drained => match self.phase {
                Phase::AfterBlock { pos } => {
                    assert(self.pending@.len() == self.pending.len());
                    self.to_block(pos + 1)
                },
                Phase::SettleDrain { before } => {
                    let now: u32 = self.acks.count();
                    if now == before || now == self.layout.num_blocks {
                        self.phase = Phase::Top;
                        Action::Drain
                    } else {
                        self.phase = Phase::Settling { before: now };
                        Action::Sleep
                    }
                },
                _ => {
                    self.pending = self.acks.pending();
                    if self.pending.len() == 0 || self.receiver_gone {
                        self.phase = Phase::Waiting;
                        Action::AwaitDone
                    } else {
                        self.to_block(0)
                    }
                },
            },
            Event::Reply(Some(Feedback::Done { ok, error })) => {
                self.phase = Phase::Over;
                Action::Finish { ok, error }
            },
            Event::Reply(Some(_)) => {
                self.phase = Phase::Top;
                Action::Drain
            },
            Event::Reply(None) => {
                self.phase = Phase::Over;
                Action::Fail(Error::protocol("receiver never sent Done"))
            },
            Event::Sized(asked) => match self.phase {
                Phase::Sizing { pos } => {
                    self.queue_block(pos, asked);
                    self.pump(pos)
                },
                _ => Action::Drain,
            },
            Event::Flushed { gone } => match self.phase {
                Phase::Flushing { pos } => {
                    self.batch.clear();
                    self.receiver_gone = gone;
                    assert(self@.batch =~= Seq::<u8>::empty());
                    if gone {
                        self.end_round()
                    } else {
                        self.pump(pos)
                    }
                },
                _ => Action::Drain,
            },
            Event::Slept => match self.phase {
                Phase::Settling { before } => {
                    self.phase = Phase::SettleDrain { before };
                    Action::Drain
                },
                _ => Action::Drain,
            },
        }
    }

    /// Hear the receiver's feedback. An acknowledgement is noted; a report
    /// that counts a datagram is handed on for the loss and rate estimates; a
    /// verdict or a lost connection ends the transfer.
    pub fn on_feedback(&mut self, feedback: Feedback) -> (heard: Heard)
        requires
            old(self).wf(),
        ensures
            final(self).wf(),
            final(self)@ == old(self)@.told(feedback),
            old(self)@.hears(feedback, heard),
            match feedback {
                Feedback::Decoded(_) => heard is Nothing,
                Feedback::Progress { pkts, span, t_ms } => if pkts == 0 {
                    heard is Nothing
                } else {
                    heard == (Heard::Report {
                        pkts,
                        span,
                        sent: match span {
                            Some(n) => n,
                            None => old(self)@.packets_sent as u64,
                        },
                        bytes_sent: old(self)@.bytes_sent as u64,
                        t_ms,
                    })
                },
                Feedback::Done { ok, error } => heard == (Heard::Finished { ok, error }),
                Feedback::Closed(why) => heard matches Heard::Lost(Error::Protocol(m)) && m@
                    == "control connection lost: "@ + why@,
            },
    {
        match feedback {
            Feedback::Decoded(index) => {
                self.acks.mark(index);
                Heard::Nothing
            },
            Feedback::Progress { pkts, span, t_ms } => {
                if pkts == 0 {
                    return Heard::Nothing;
                }
                let sent: u64 = match span {
                    Some(n) => n,
                    None => self.packets_sent,
                };
                Heard::Report { pkts, span, sent, bytes_sent: self.bytes_sent, t_ms }
            },
            Feedback::Done { ok, error } => Heard::Finished { ok, error },
            Feedback::Closed(why) => Heard::Lost(
                Error::Protocol(join("control connection lost: ", why.as_str())),
            ),
        }
    }

    /// Whether the encoding symbol ids and the accounts have room for the
    /// block that waits for its repair count, with `asked` repair packets.
    pub fn has_room(&self, asked: u32) -> (ok: bool)
        requires
            self.wf(),
        ensures
            ok == self@.room(asked),
    {
        match self.phase {
            Phase::Sizing { pos } => {
                let b: u32 = self.pending[pos];
                proof {
                    self.layout.lemma_bounds(b as int);
                    assert(one_source_block(
                        self.layout.len(b as int) as nat,
                        self.layout.symbol_size,
                    ));
                    assert(ESI_LIMIT * self.seg <= ESI_LIMIT * 70000) by (nonlinear_arith)
                        requires
                            self.seg <= 70000,
                    ;
                }
                let least: u32 = if self.round == 0 {
                    FIRST_REPAIR
                } else {
                    LATER_REPAIR
                };
                let count: u32 = if asked < least {
                    least
                } else {
                    asked
                };
                let size: u16 = coded_symbol_size(self.layout.symbol_size);
                let k: u64 = div_ceil(self.layout.block_len(b), size as u64);
                let next: u64 = self.next_repair[b as usize] as u64;
                k + next + count as u64 <= ESI_LIMIT && self.packets_sent <= u64::MAX - ESI_LIMIT
                    && self.bytes_sent <= u64::MAX - ESI_LIMIT * self.seg as u64
            },
            _ => true,
        }
    }

    /// The batch to be sent.
    pub fn batch(&self) -> (r: &[u8])
        ensures
            r@ == self@.batch,
    {
        self.batch.as_slice()
    }

    /// Bytes in one datagram; all that are sprayed have the same size.
    pub fn segment_len(&self) -> (n: usize)
        requires
            self.wf(),
        ensures
            n == self@.seg(),
    {
        self.seg
    }

    /// Datagrams that one batch may hold.
    pub fn batch_limit(&self) -> (n: usize)
        ensures
            n == self@.max_segs,
    {
        self.max_segs
    }

    /// Blocks acknowledged so far.
    pub fn acked_count(&self) -> (n: u32)
        ensures
            n == count_set(self@.acked),
    {
        self.acks.count()
    }

    /// Rounds done so far.
    pub fn round(&self) -> (n: u32)
        ensures
            n == self@.round,
    {
        self.round
    }

    /// Packets sent so far, those lost on purpose among them.
    pub fn packets_sent(&self) -> (n: u64)
        ensures
            n == self@.packets_sent,
    {
        self.packets_sent
    }

    /// Bytes sent so far.
    pub fn bytes_sent(&self) -> (n: u64)
        ensures
            n == self@.bytes_sent,
    {
        self.bytes_sent
    }
}

/// What feedback comes to.
pub enum Heard {
    /// Nothing to act on.
    Nothing,
    /// A report for the loss and rate estimates. `sent` is the receiver's
    /// sequence span, or without one the packets sent so far.
    Report { pkts: u64, span: Option<u64>, sent: u64, bytes_sent: u64, t_ms: u64 },
    /// The receiver's verdict.
    Finished { ok: bool, error: Option<String> },
    /// The control connection is gone.
    Lost(Error),
}

/// The sender succeeds exactly where the receiver did.
pub open spec fn ended(ok: bool, error: Option<String>, r: Result<(), Error>) -> bool {
    if ok {
        r is Ok
    } else {
        r matches Err(Error::Transfer(m)) && m@ == match error {
            Some(e) => e@,
            None => "receiver reported failure"@,
        }
    }
}

/// The sender's result, given the receiver's verdict.
pub fn outcome(ok: bool, error: Option<String>) -> (r: Result<(), Error>)
    ensures
        ended(ok, error, r),
{
    if ok {
        return Ok(());
    }
    match error {
        Some(e) => Err(Error::Transfer(e)),
        None => Err(Error::Transfer("receiver reported failure".to_owned())),
    }
}

/// What can happen to a sender: an event, or feedback.
pub enum Move {
    Event(Event),
    Feedback(Feedback),
}

impl SenderView {
    /// The sender after feedback.
    pub open spec fn told(self, feedback: Feedback) -> SenderView {
        match feedback {
            Feedback::Decoded(i) => if i < self.acked.len() {
                SenderView { acked: self.acked.update(i as int, true), ..self }
            } else {
                self
            },
            _ => self,
        }
    }

    /// What the sender makes known of feedback.
    pub open spec fn hears(self, feedback: Feedback, heard: Heard) -> bool {
        match feedback {
            Feedback::Decoded(_) => heard is Nothing,
            Feedback::Progress { pkts, span, t_ms } => if pkts == 0 {
                heard is Nothing
            } else {
                heard == (Heard::Report {
                    pkts,
                    span,
                    sent: match span {
                        Some(n) => n,
                        None => self.packets_sent as u64,
                    },
                    bytes_sent: self.bytes_sent as u64,
                    t_ms,
                })
            },
            Feedback::Done { ok, error } => heard == (Heard::Finished { ok, error }),
            Feedback::Closed(why) => heard matches Heard::Lost(Error::Protocol(m)) && m@
                == "control connection lost: "@ + why@,
        }
    }

    /// The sender after a move.
    pub open spec fn moved(self, m: Move) -> SenderView {
        match m {
            Move::Event(e) => self.step(e).0,
            Move::Feedback(f) => self.told(f),
        }
    }

    /// The move can be made.
    pub open spec fn can(self, m: Move) -> bool {
        match m {
            Move::Event(e) => self.expects(e) && self.round < u32::MAX,
            Move::Feedback(_) => true,
        }
    }

    /// The sender after a run of moves.
    pub open spec fn after(self, moves: Seq<Move>) -> SenderView
        decreases moves.len(),
    {
        if moves.len() == 0 {
            self
        } else {
            self.after(moves.drop_last()).moved(moves.last())
        }
    }

    /// Each move of the run can be made in its turn.
    pub open spec fn can_all(self, moves: Seq<Move>) -> bool
        decreases moves.len(),
    {
        moves.len() == 0 || (self.can_all(moves.drop_last()) && self.after(moves.drop_last()).can(
            moves.last(),
        ))
    }

    /// The shape that the moves keep.
    pub open spec fn shaped(self) -> bool {
        &&& self.acked.len() == self.layout.num_blocks
        &&& self.next_repair.len() == self.layout.num_blocks
        &&& self.pending.len() <= self.layout.num_blocks
        &&& forall|i: int|
            0 <= i < self.pending.len() ==> #[trigger] self.pending[i] < self.layout.num_blocks
        &&& forall|i: int, j: int|
            0 <= i < j < self.pending.len() ==> #[trigger] self.pending[i]
                < #[trigger] self.pending[j]
        &&& match self.phase {
            Phase::Sizing { pos } => pos < self.pending.len(),
            Phase::Flushing { pos } => pos < self.pending.len(),
            Phase::AfterBlock { pos } => pos < self.pending.len(),
            _ => true,
        }
    }

    /// `later` can follow this state: what is fixed is the same, and what is
    /// counted has not gone back.
    pub open spec fn precedes(self, later: SenderView) -> bool {
        &&& later.layout == self.layout
        &&& later.data == self.data
        &&& later.transfer_tag == self.transfer_tag
        &&& later.drop_below == self.drop_below
        &&& later.max_segs == self.max_segs
        &&& later.acked.len() == self.acked.len()
        &&& forall|b: int| 0 <= b < self.acked.len() && self.acked[b] ==> #[trigger] later.acked[b]
        &&& later.next_repair.len() == self.next_repair.len()
        &&& forall|b: int|
            0 <= b < self.next_repair.len() ==> self.next_repair[b]
                <= #[trigger] later.next_repair[b]
        &&& self.packets_sent <= later.packets_sent
        &&& self.bytes_sent <= later.bytes_sent
        &&& self.round <= later.round
    }
}

proof fn lemma_unset(s: Seq<bool>, n: nat)
    requires
        n <= s.len(),
        n <= u32::MAX,
    ensures
        forall|i: int, j: int|
            0 <= i < j < unset(s, n).len() ==> #[trigger] unset(s, n)[i] < #[trigger] unset(
                s,
                n,
            )[j],
        unset(s, n).len() <= n,
        unset(s, n).len() == 0 <==> forall|b: int| 0 <= b < n ==> s[b],
        forall|i: int|
            0 <= i < unset(s, n).len() ==> (#[trigger] unset(s, n)[i]) < n && !s[unset(
                s,
                n,
            )[i] as int],
    decreases n,
{
    law_unset_increases(s, n);
    if n > 0 {
        let m = (n - 1) as nat;
        lemma_unset(s, m);
        assert forall|i: int| 0 <= i < unset(s, n).len() implies (#[trigger] unset(s, n)[i]) < n
            && !s[unset(s, n)[i] as int] by {
            if i < unset(s, m).len() {
                assert(unset(s, n)[i] == unset(s, m)[i]);
            }
        }
    }
}

proof fn lemma_next_unacked(pending: Seq<u32>, acked: Seq<bool>, pos: int)
    requires
        0 <= pos <= pending.len(),
    ensures
        pos <= next_unacked(pending, acked, pos) <= pending.len(),
        next_unacked(pending, acked, pos) < pending.len() ==> !acked[pending[next_unacked(
            pending,
            acked,
            pos,
        )] as int],
    decreases pending.len() - pos,
{
    if pos < pending.len() && acked[pending[pos] as int] {
        lemma_next_unacked(pending, acked, pos + 1);
    }
}

proof fn lemma_move(v: SenderView, m: Move)
    requires
        v.shaped(),
        v.can(m),
    ensures
        v.moved(m).shaped(),
        v.precedes(v.moved(m)),
{
    match m {
        Move::Feedback(_) => {},
        Move::Event(e) => match e {
            Event::Drained => {
                lemma_unset(v.acked, v.acked.len());
                match v.phase {
                    Phase::AfterBlock { pos } => {
                        lemma_next_unacked(v.pending, v.acked, pos + 1);
                    },
                    Phase::Top => {
                        lemma_next_unacked(unset(v.acked, v.acked.len()), v.acked, 0);
                    },
                    _ => {},
                }
            },
            Event::Sized(asked) => {
                if let Phase::Sizing { pos } = v.phase {
                    assert(v.pending[pos as int] < v.layout.num_blocks);
                    let w = v.queued(pos, asked);
                    assert(0 <= w.filled(pos).grams.len() * w.seg()) by (nonlinear_arith);
                }
            },
            Event::Flushed { gone } => {
                if let Phase::Flushing { pos } = v.phase {
                    let w = SenderView { batch: Seq::empty(), receiver_gone: gone, ..v };
                    assert(0 <= w.filled(pos).grams.len() * w.seg()) by (nonlinear_arith);
                }
            },
            _ => {},
        },
    }
}

/// Over any run of a sender, what is fixed stays as it is, a block that was
/// acknowledged stays so, and no count goes back.
pub proof fn law_nothing_goes_back(v: SenderView, moves: Seq<Move>)
    requires
        v.shaped(),
        v.can_all(moves),
    ensures
        v.after(moves).shaped(),
        v.precedes(v.after(moves)),
    decreases moves.len(),
{
    if moves.len() > 0 {
        law_nothing_goes_back(v, moves.drop_last());
        lemma_move(v.after(moves.drop_last()), moves.last());
    }
}

/// Over any run every packet, lost on purpose or not, takes one sequence
/// number and no number is taken twice: the plane has moved on by exactly the
/// packets sent.
pub proof fn law_each_packet_takes_one_number(v: SenderView, moves: Seq<Move>)
    requires
        v.shaped(),
        v.can_all(moves),
    ensures
        ({
            let w = v.after(moves);
            let sent = (w.packets_sent - v.packets_sent) as nat;
            &&& w.packets_sent >= v.packets_sent
            &&& w.plane == advanced(v.plane, sent)
            &&& lasts(v.plane, sent) ==> (v.plane matches TxView::Sealed { key, seq } ==> w.plane
                == (TxView::Sealed { key, seq: (seq + sent) as u64 }))
        }),
    decreases moves.len(),
{
    if moves.len() > 0 {
        let front = moves.drop_last();
        law_each_packet_takes_one_number(v, front);
        law_nothing_goes_back(v, front);
        let u = v.after(front);
        let w = v.after(moves);
        lemma_move(u, moves.last());
        lemma_move_plane(u, moves.last());
        lemma_advanced_sum(
            v.plane,
            (u.packets_sent - v.packets_sent) as nat,
            (w.packets_sent - u.packets_sent) as nat,
        );
    }
    let sent = (v.after(moves).packets_sent - v.packets_sent) as nat;
    if lasts(v.plane, sent) {
        lemma_advanced_seq(v.plane, sent);
    }
}

proof fn lemma_move_plane(v: SenderView, m: Move)
    requires
        v.shaped(),
        v.can(m),
    ensures
        v.moved(m).packets_sent >= v.packets_sent,
        v.moved(m).plane == advanced(
            v.plane,
            (v.moved(m).packets_sent - v.packets_sent) as nat,
        ),
{
    match m {
        Move::Event(Event::Sized(asked)) => {
            if let Phase::Sizing { pos } = v.phase {
                lemma_fill_plane(v.queued(pos, asked), pos);
            }
        },
        Move::Event(Event::Flushed { gone }) => {
            if let Phase::Flushing { pos } = v.phase {
                lemma_fill_plane(
                    SenderView { batch: Seq::empty(), receiver_gone: gone, ..v },
                    pos,
                );
            }
        },
        _ => {},
    }
}

proof fn lemma_fill_plane(v: SenderView, pos: usize)
    ensures
        v.filled(pos).plane == advanced(v.plane, v.filled(pos).taken),
{
    law_fill_counts(
        v.transfer_tag,
        v.pending[pos as int],
        v.drop_below,
        v.plane,
        v.rng,
        v.queue,
        v.max_segs,
    );
}

/// Repair packets are always fresh: whatever happens between two rounds on a
/// block, the later round's encoding symbol ids all come after the earlier
/// one's.
pub proof fn law_repair_is_fresh(
    v: SenderView,
    pos: usize,
    asked: u32,
    moves: Seq<Move>,
    later_pos: usize,
)
    requires
        v.shaped(),
        v.phase == (Phase::Sizing { pos }),
        v.can(Move::Event(Event::Sized(asked))),
        v.moved(Move::Event(Event::Sized(asked))).can_all(moves),
        ({
            let w = v.moved(Move::Event(Event::Sized(asked))).after(moves);
            &&& w.phase == (Phase::Sizing { pos: later_pos })
            &&& w.pending[later_pos as int] == v.pending[pos as int]
        }),
    ensures
        ({
            let b = v.pending[pos as int] as int;
            let w = v.moved(Move::Event(Event::Sized(asked))).after(moves);
            v.next_repair[b] + repair_count(v.round, asked) <= w.next_repair[b]
        }),
{
    let first = Move::Event(Event::Sized(asked));
    lemma_move(v, first);
    assert(v.pending[pos as int] < v.layout.num_blocks);
    law_nothing_goes_back(v.moved(first), moves);
    let b = v.pending[pos as int] as int;
    assert(v.moved(first).next_repair[b] == v.next_repair[b] + repair_count(v.round, asked));
}

/// Source packets go out once: after a block got its packets in round zero,
/// as long as that round lasts the list of blocks stays the same and only
/// blocks after it get theirs. Whenever the block gets packets again it is in
/// a later round, and then all of them are repair.
pub proof fn law_source_packets_go_out_once(
    v: SenderView,
    pos: usize,
    asked: u32,
    moves: Seq<Move>,
)
    requires
        v.shaped(),
        v.round == 0,
        v.phase == (Phase::Sizing { pos }),
        v.can(Move::Event(Event::Sized(asked))),
        v.moved(Move::Event(Event::Sized(asked))).can_all(moves),
    ensures
        ({
            let b = v.pending[pos as int];
            let w = v.moved(Move::Event(Event::Sized(asked))).after(moves);
            &&& w.round == 0 ==> {
                &&& w.pending == v.pending
                &&& match w.phase {
                    Phase::Sizing { pos: p } => pos < p && b < w.pending[p as int],
                    Phase::Flushing { pos: p } => pos <= p,
                    Phase::AfterBlock { pos: p } => pos <= p,
                    _ => false,
                }
            }
            &&& forall|p: usize, n: u32|
                w.phase == (Phase::Sizing { pos: p }) && w.pending[p as int] == b ==> {
                    &&& w.round > 0
                    &&& (#[trigger] w.queued(p, n)).queue == Seq::new(
                        repair_count(w.round, n) as nat,
                        |i: int|
                            raptorq_packet(
                                w.layout.block(w.data, b as int),
                                w.layout.symbol_size,
                                w.sources(b) + w.next_repair[b as int] + i,
                            ),
                    )
                }
        }),
    decreases moves.len(),
{
    let first = Move::Event(Event::Sized(asked));
    lemma_move(v, first);
    law_nothing_goes_back(v.moved(first), moves);
    if moves.len() > 0 {
        let front = moves.drop_last();
        law_source_packets_go_out_once(v, pos, asked, front);
        let u = v.moved(first).after(front);
        law_nothing_goes_back(v.moved(first), front);
        lemma_move(u, moves.last());
        if u.round == 0 {
            if let Phase::AfterBlock { pos: p } = u.phase {
                lemma_next_unacked(u.pending, u.acked, p + 1);
            }
        }
    }
}

/// A block that was acknowledged gets no more packets.
pub proof fn law_acknowledged_blocks_rest(v: SenderView, event: Event)
    requires
        v.shaped(),
        v.can(Move::Event(event)),
    ensures
        v.step(event).1 matches ActionView::Size { block, source_symbols, round } ==> block
            < v.acked.len() && !v.acked[block as int],
{
    if event is Drained {
        lemma_unset(v.acked, v.acked.len());
        match v.phase {
            Phase::AfterBlock { pos } => {
                lemma_next_unacked(v.pending, v.acked, pos + 1);
            },
            Phase::Top => {
                lemma_next_unacked(unset(v.acked, v.acked.len()), v.acked, 0);
            },
            _ => {},
        }
    }
}

/// Between rounds the sender waits for the verdict exactly when every block
/// is acknowledged or the receiver is gone.
pub proof fn law_waits_when_nothing_is_left(v: SenderView)
    requires
        v.shaped(),
        v.phase is Top,
    ensures
        v.step(Event::Drained).1 is AwaitDone <==> v.receiver_gone || forall|b: int|
            0 <= b < v.acked.len() ==> v.acked[b],
{
    lemma_unset(v.acked, v.acked.len());
}

/// After a round the sender goes on waiting exactly while acknowledgements
/// keep coming and some are still missing; then it starts over.
pub proof fn law_settles_until_quiet(v: SenderView, before: u32)
    requires
        v.shaped(),
        v.phase == (Phase::SettleDrain { before }),
    ensures
        v.step(Event::Drained).1 is Sleep <==> count_set(v.acked) != before && !(forall|b: int|
            0 <= b < v.acked.len() ==> v.acked[b]),
        !(v.step(Event::Drained).1 is Sleep) ==> v.step(Event::Drained).0.phase is Top,
{
    lemma_count_bound(v.acked);
}

/// An event ends a transfer only by the receiver's verdict or by its absence.
pub proof fn law_ends_only_by_verdict(v: SenderView, event: Event)
    ensures
        v.step(event).1 is Finish <==> (event matches Event::Reply(Some(f)) && f is Done),
        v.step(event).1 is Fail <==> event == Event::Reply(None),
        event matches Event::Reply(Some(Feedback::Done { ok, error })) ==> v.step(event).1
            == (ActionView::Finish { ok, error }),
{
}

/// All packets queued for a block are packets of that block.
pub proof fn law_queue_is_of_the_block(v: SenderView, pos: usize, asked: u32)
    requires
        v.shaped(),
        v.phase == (Phase::Sizing { pos }),
        v.room(asked),
    ensures
        packets_of(
            v.layout.block(v.data, v.pending[pos as int] as int),
            v.layout.symbol_size,
            v.queued(pos, asked).queue,
        ),
{
    let b = v.pending[pos as int];
    let object = v.layout.block(v.data, b as int);
    let size = v.layout.symbol_size;
    let queue = v.queued(pos, asked).queue;
    let k = v.sources(b) as int;
    let first = k + v.next_repair[b as int];
    assert forall|j: int| 0 <= j < queue.len() implies packet_of(
        object,
        size,
        #[trigger] queue[j],
    ) by {
        let esi = if v.round == 0 {
            if j < k {
                j
            } else {
                first + (j - k)
            }
        } else {
            first + j
        };
        assert(queue[j] == raptorq_packet(object, size, esi));
    }
}

/// A batch is cut back: cutting the first batch of a block every segment
/// length gives the datagrams that were put into it.
pub proof fn law_first_batch_is_cut_back(v: SenderView, pos: usize, asked: u32)
    requires
        v.ready(pos, asked),
        v.queued(pos, asked).filled_authentic(pos),
    ensures
        ({
            let w = v.queued(pos, asked);
            let grams = w.filled(pos).grams;
            &&& ceil_div(concat(grams).len(), w.seg()) == grams.len()
            &&& forall|i: int|
                0 <= i < grams.len() ==> piece(concat(grams), w.seg(), i) == #[trigger] grams[i]
        }),
{
    let w = v.queued(pos, asked);
    assert forall|i: int| 0 <= i < w.queue.len() implies (#[trigger] w.queue[i]).len()
        == PAYLOAD_ID_LEN + coded_size(v.layout.symbol_size) by {}
    lemma_filled_is_cut_back(w, pos);
}

/// A batch of packets that hold a symbol each is cut back at the segment
/// length.
pub proof fn lemma_filled_is_cut_back(w: SenderView, pos: usize)
    requires
        w.filled_authentic(pos),
        forall|i: int|
            0 <= i < w.queue.len() ==> (#[trigger] w.queue[i]).len() == PAYLOAD_ID_LEN
                + coded_size(w.layout.symbol_size),
    ensures
        ({
            let grams = w.filled(pos).grams;
            &&& ceil_div(concat(grams).len(), w.seg()) == grams.len()
            &&& forall|i: int|
                0 <= i < grams.len() ==> piece(concat(grams), w.seg(), i) == #[trigger] grams[i]
        }),
{
    law_batch_is_even(
        w.transfer_tag,
        w.pending[pos as int],
        w.drop_below,
        w.plane,
        w.rng,
        w.queue,
        w.max_segs,
        PAYLOAD_ID_LEN as nat + coded_size(w.layout.symbol_size),
    );
}

/// If everything that round zero sends for a block reaches the receiver, in
/// whatever order and among whatever other packets of the block, the receiver
/// decodes the block's bytes.
pub proof fn law_round_zero_is_enough(
    v: SenderView,
    pos: usize,
    asked: u32,
    received: Seq<Seq<u8>>,
    decoded: Option<Seq<u8>>,
)
    requires
        v.shaped(),
        v.layout.wf(),
        v.layout.codable(),
        v.data.len() == v.layout.file_size,
        v.round == 0,
        v.phase == (Phase::Sizing { pos }),
        v.ready(pos, asked),
        forall|i: int|
            0 <= i < v.queued(pos, asked).queue.len() ==> received.contains(
                #[trigger] v.queued(pos, asked).queue[i],
            ),
        packets_of(
            v.layout.block(v.data, v.pending[pos as int] as int),
            v.layout.symbol_size,
            received,
        ),
        decoding(
            v.layout.len(v.pending[pos as int] as int) as u64,
            v.layout.symbol_size,
            received,
            decoded,
        ),
    ensures
        decoded == Some(v.layout.block(v.data, v.pending[pos as int] as int)),
{
    let b = v.pending[pos as int];
    let len = v.layout.len(b as int) as u64;
    let size = v.layout.symbol_size;
    let queue = v.queued(pos, asked).queue;
    v.layout.lemma_bounds(b as int);
    assert(all_source_carried(len, size, received)) by {
        assert forall|esi: int| 0 <= esi < coded_symbols(len as nat, size) implies #[trigger] carried(
            received,
            esi,
        ) by {
            assert(carried(queue, esi));
            let i = choose|i: int|
                0 <= i < queue.len() && (#[trigger] queue[i]).subrange(0, 4) == payload_id(esi);
            assert(received.contains(queue[i]));
            let j = choose|j: int| 0 <= j < received.len() && received[j] == queue[i];
            assert(received[j].subrange(0, 4) == payload_id(esi));
        }
    }
}

/// An acknowledgement is noted whenever it is heard, whatever the sender is
/// at: the block is acknowledged from then on, and nothing else changes. One of
/// a number that is no block's changes nothing, nor does any other feedback.
pub proof fn law_an_acknowledgement_is_noted(v: SenderView, i: u32, other: Feedback)
    requires
        !(other is Decoded),
    ensures
        i < v.acked.len() ==> v.told(Feedback::Decoded(i)).acked == v.acked.update(i as int, true),
        i >= v.acked.len() ==> v.told(Feedback::Decoded(i)).acked == v.acked,
        v.told(Feedback::Decoded(i)) == (SenderView {
            acked: v.told(Feedback::Decoded(i)).acked,
            ..v
        }),
        v.told(other) == v,
{
}

/// Once the acknowledgement of a block was heard, in whatever state, no later
/// event asks for packets of that block, whatever happens in between.
pub proof fn law_a_heard_block_is_never_sized_again(
    v: SenderView,
    i: u32,
    moves: Seq<Move>,
    event: Event,
)
    requires
        v.shaped(),
        i < v.acked.len(),
        v.told(Feedback::Decoded(i)).can_all(moves),
        v.told(Feedback::Decoded(i)).after(moves).can(Move::Event(event)),
    ensures
        ({
            let w = v.told(Feedback::Decoded(i)).after(moves);
            &&& w.acked[i as int]
            &&& w.step(event).1 matches ActionView::Size { block, source_symbols, round } ==> block
                != i
        }),
{
    let told = v.told(Feedback::Decoded(i));
    law_an_acknowledgement_is_noted(v, i, Feedback::Progress { pkts: 0, span: None, t_ms: 0 });
    assert(told.shaped());
    law_nothing_goes_back(told, moves);
    assert(told.acked[i as int]);
    law_acknowledged_blocks_rest(told.after(moves), event);
}

/// As much repair goes out as was asked for: never less, and exactly as much
/// wherever that is not below the least, which is 2 packets in round zero and 8
/// in a later one.
pub proof fn law_repair_is_as_asked(round: u32, asked: u32)
    ensures
        repair_count(round, asked) >= asked,
        asked >= 8 ==> repair_count(round, asked) == asked,
        round == 0 && asked >= 2 ==> repair_count(round, asked) == asked,
        round == 0 && asked < 2 ==> repair_count(round, asked) == 2,
        round > 0 && asked < 8 ==> repair_count(round, asked) == 8,
{
}

/// What is queued for a block, packet by packet. In round zero its source
/// packets come first, one for each symbol's length of the block and one for
/// the rest, in the order of their ids from zero; in a later round there are
/// none. Then comes repair, as much as was asked for or the least there is,
/// whose ids go on from the source packets' by as much repair as went out
/// before. That account moves on by what is queued, for this block alone.
pub proof fn law_the_queue_is_what_was_asked_for(
    v: SenderView,
    pos: usize,
    asked: u32,
    b: u32,
    k: nat,
)
    requires
        v.shaped(),
        v.phase == (Phase::Sizing { pos }),
        v.room(asked),
        v.layout.wf(),
        v.data.len() == v.layout.file_size,
        b == v.pending[pos as int],
        (k - 1) * coded_size(v.layout.symbol_size) < v.layout.len(b as int) <= k * coded_size(
            v.layout.symbol_size,
        ),
    ensures
        ({
            let w = v.queued(pos, asked);
            let object = v.layout.block(v.data, b as int);
            let size = v.layout.symbol_size;
            let first = if v.round == 0 {
                k as int
            } else {
                0
            };
            let repair = w.queue.len() - first;
            let used = v.next_repair[b as int];
            &&& repair >= asked
            &&& asked >= 8 ==> repair == asked
            &&& repair == asked || (v.round == 0 && repair == 2) || (v.round > 0 && repair == 8)
            &&& forall|i: int|
                0 <= i < first ==> #[trigger] w.queue[i] == raptorq_packet(object, size, i)
            &&& forall|i: int|
                first <= i < w.queue.len() ==> #[trigger] w.queue[i] == raptorq_packet(
                    object,
                    size,
                    k + used + (i - first),
                )
            &&& w.next_repair.len() == v.next_repair.len()
            &&& w.next_repair[b as int] == used + repair
            &&& forall|c: int|
                0 <= c < v.next_repair.len() && c != b ==> #[trigger] w.next_repair[c]
                    == v.next_repair[c]
            &&& w == (SenderView { queue: w.queue, next_repair: w.next_repair, ..v })
        }),
{
    let t = coded_size(v.layout.symbol_size);
    v.layout.lemma_bounds(b as int);
    let len = v.layout.len(b as int) as nat;
    lemma_ceil_div(len, t);
    let q = ceil_div(len, t);
    assert(q == k) by (nonlinear_arith)
        requires
            t > 0,
            (k - 1) * t < len <= k * t,
            len <= t * q,
            t * q < len + t,
    ;
    assert(v.sources(b) == k);
}

/// The size that a symbol has on the wire: that asked for below 64 bytes, and
/// from there on the next lower multiple of eight.
pub proof fn law_symbols_are_rounded_down(symbol_size: u16)
    ensures
        symbol_size < 64 ==> coded_size(symbol_size) == symbol_size,
        symbol_size >= 64 ==> coded_size(symbol_size) % 8 == 0 && coded_size(symbol_size)
            <= symbol_size < coded_size(symbol_size) + 8,
{
}

/// A segment is a datagram of one symbol: 20 bytes more than the symbol in the
/// clear, 44 when sealed.
pub proof fn law_a_segment_holds_a_symbol(v: SenderView)
    ensures
        v.plane is Plain ==> v.seg() == 20 + coded_size(v.layout.symbol_size),
        v.plane is Sealed ==> v.seg() == 44 + coded_size(v.layout.symbol_size),
{
}

/// There is room for a block exactly while its encoding symbol ids fit in 24
/// bits and the accounts cannot overflow.
pub proof fn law_room_is_for_24_bit_ids(v: SenderView, pos: usize, asked: u32, b: u32)
    requires
        v.phase == (Phase::Sizing { pos }),
        b == v.pending[pos as int],
    ensures
        v.room(asked) <==> {
            &&& v.sources(b) + v.next_repair[b as int] + repair_count(v.round, asked)
                <= 0x100_0000
            &&& v.packets_sent + 0x100_0000 <= u64::MAX
            &&& v.bytes_sent + 0x100_0000 * v.seg() <= u64::MAX
        },
{
}

/// Filling a batch. What leaves the queue leaves it from the front, and every
/// packet that does is counted, lost on purpose or not; bytes are counted for
/// the datagrams alone. A batch holds no more datagrams than it may, and fewer
/// only when the queue is empty. There is something to flush exactly where
/// there is a datagram; otherwise the block is done.
pub proof fn law_a_batch_is_taken_off_the_queue(v: SenderView, pos: usize, grams: Seq<Seq<u8>>)
    requires
        grams == v.filled(pos).grams,
    ensures
        ({
            let w = v.pump(pos).0;
            let action = v.pump(pos).1;
            let taken = v.queue.len() - w.queue.len();
            &&& 0 <= taken
            &&& w.queue == v.queue.skip(taken)
            &&& w.packets_sent == v.packets_sent + taken
            &&& w.bytes_sent == v.bytes_sent + grams.len() * v.seg()
            &&& w.batch == concat(grams)
            &&& grams.len() <= taken
            &&& grams.len() <= v.max_segs
            &&& grams.len() < v.max_segs ==> w.queue.len() == 0
            &&& v.drop_below == 0 ==> grams.len() == taken && w.rng == v.rng
            &&& w.plane == advanced(v.plane, taken as nat)
            &&& grams.len() > 0 ==> action is Flush && w.phase == (Phase::Flushing { pos })
            &&& grams.len() == 0 ==> action is Drain && w.phase == (Phase::AfterBlock { pos })
            &&& w == (SenderView {
                queue: w.queue,
                packets_sent: w.packets_sent,
                bytes_sent: w.bytes_sent,
                batch: w.batch,
                plane: w.plane,
                rng: w.rng,
                phase: w.phase,
                ..v
            })
        }),
{
    law_fill_counts(
        v.transfer_tag,
        v.pending[pos as int],
        v.drop_below,
        v.plane,
        v.rng,
        v.queue,
        v.max_segs,
    );
    let taken = v.filled(pos).taken as int;
    assert(v.queue.skip(taken).len() == v.queue.len() - taken);
}

/// A repair count for the block at hand queues its packets and fills the first
/// batch with them; a flushed batch is followed by the next one of the same
/// block. Where the receiver turned out to be gone the round ends instead, and
/// what was queued is dropped.
pub proof fn law_a_block_is_sprayed_batch_by_batch(v: SenderView, pos: usize, asked: u32)
    ensures
        v.phase == (Phase::Sizing { pos }) ==> v.step(Event::Sized(asked)) == v.queued(
            pos,
            asked,
        ).pump(pos),
        v.phase == (Phase::Flushing { pos }) ==> {
            &&& v.step(Event::Flushed { gone: false }) == (SenderView {
                batch: Seq::empty(),
                receiver_gone: false,
                ..v
            }).pump(pos)
            &&& v.step(Event::Flushed { gone: true }).1 is RoundDone
            &&& v.step(Event::Flushed { gone: true }).0 == (SenderView {
                batch: Seq::empty(),
                queue: Seq::empty(),
                receiver_gone: true,
                round: (v.round + 1) as u32,
                phase: Phase::Settling { before: count_set(v.acked) as u32 },
                ..v
            })
        },
{
}

/// After a block the sender goes on with the next one of the round's list that
/// is not acknowledged by now, passing over only such as are; where none is
/// left the round ends, and is counted. The repair count is asked for with the
/// block's source symbols and the round.
pub proof fn law_the_round_goes_on_with_the_next_block(v: SenderView, pos: usize)
    requires
        v.shaped(),
        v.phase == (Phase::AfterBlock { pos }),
        v.round < u32::MAX,
    ensures
        ({
            let (w, action) = v.step(Event::Drained);
            match action {
                ActionView::Size { block, source_symbols, round } => {
                    &&& w.phase matches Phase::Sizing { pos: p }
                    &&& pos < p < v.pending.len()
                    &&& block == v.pending[p as int]
                    &&& !v.acked[block as int]
                    &&& forall|q: int|
                        pos < q < p ==> v.acked[(#[trigger] v.pending[q]) as int]
                    &&& source_symbols == v.layout.symbols(block as int)
                    &&& round == v.round
                    &&& w == (SenderView { phase: w.phase, ..v })
                },
                ActionView::RoundDone => {
                    &&& forall|q: int|
                        pos < q < v.pending.len() ==> v.acked[(#[trigger] v.pending[q]) as int]
                    &&& w.round == v.round + 1
                    &&& w.phase == (Phase::Settling { before: count_set(v.acked) as u32 })
                    &&& w == (SenderView {
                        phase: w.phase,
                        round: w.round,
                        queue: Seq::empty(),
                        ..v
                    })
                },
                _ => false,
            }
        }),
{
    lemma_next_unacked(v.pending, v.acked, pos + 1);
    lemma_skipped_are_acked(v.pending, v.acked, pos + 1);
}

/// A round is made of exactly the blocks that are not acknowledged when it
/// begins, in increasing order, and begins with the first of them. Where there
/// is none, or the receiver is gone, the verdict is awaited instead.
pub proof fn law_a_round_is_of_what_is_unacknowledged(v: SenderView)
    requires
        v.shaped(),
        v.phase is Top,
    ensures
        ({
            let (w, action) = v.step(Event::Drained);
            &&& forall|b: u32|
                #[trigger] w.pending.contains(b) <==> b < v.acked.len() && !v.acked[b as int]
            &&& forall|i: int, j: int|
                0 <= i < j < w.pending.len() ==> #[trigger] w.pending[i] < #[trigger] w.pending[j]
            &&& w == (SenderView { pending: w.pending, phase: w.phase, ..v })
            &&& v.receiver_gone || w.pending.len() == 0 ==> action is AwaitDone && w.phase is Waiting
            &&& !v.receiver_gone && w.pending.len() > 0 ==> {
                &&& w.phase == (Phase::Sizing { pos: 0 })
                &&& action == (ActionView::Size {
                    block: w.pending[0],
                    source_symbols: v.layout.symbols(w.pending[0] as int),
                    round: v.round,
                })
            }
        }),
{
    let all = unset(v.acked, v.acked.len());
    lemma_unset(v.acked, v.acked.len());
    assert forall|b: u32|
        #[trigger] all.contains(b) <==> b < v.acked.len() && !v.acked[b as int] by {
        law_pending_is_what_is_unacked(v.acked, b);
    }
    if all.len() > 0 {
        assert(!v.acked[all[0] as int]);
    }
}

/// Between rounds: a pause is followed by a drain. If acknowledgements came
/// meanwhile and some are still missing, another pause begins, counted from
/// now; otherwise the next round does. Nothing else changes.
pub proof fn law_settling_changes_nothing_else(v: SenderView, before: u32)
    requires
        v.shaped(),
    ensures
        v.phase == (Phase::Settling { before }) ==> v.step(Event::Slept) == (
            SenderView { phase: Phase::SettleDrain { before }, ..v },
            ActionView::Drain,
        ),
        v.phase == (Phase::SettleDrain { before }) ==> {
            let (w, action) = v.step(Event::Drained);
            &&& w == (SenderView { phase: w.phase, ..v })
            &&& if count_set(v.acked) != before && exists|b: int|
                0 <= b < v.acked.len() && !v.acked[b] {
                action is Sleep && w.phase == (Phase::Settling {
                    before: count_set(v.acked) as u32,
                })
            } else {
                action is Drain && w.phase is Top
            }
        },
{
    lemma_count_bound(v.acked);
}

/// While the verdict is awaited, other feedback than it starts the sender over,
/// and nothing else about it changes; the verdict and its absence end it.
pub proof fn law_awaiting_changes_nothing_else(v: SenderView, reply: Option<Feedback>)
    ensures
        ({
            let (w, action) = v.step(Event::Reply(reply));
            &&& w == (SenderView { phase: w.phase, ..v })
            &&& match reply {
                Some(Feedback::Done { ok, error }) => w.phase is Over && action
                    == (ActionView::Finish { ok, error }),
                Some(_) => w.phase is Top && action is Drain,
                None => w.phase is Over && action == (ActionView::Fail {
                    message: "protocol: "@ + "receiver never sent Done"@,
                }),
            }
        }),
{
}

/// Each event is expected in the phases that wait for it, and in no other.
pub proof fn law_events_are_expected_when_waited_for(
    v: SenderView,
    reply: Option<Feedback>,
    gone: bool,
    asked: u32,
)
    ensures
        v.expects(Event::Drained) <==> v.phase is Top || v.phase is AfterBlock || v.phase
            is SettleDrain,
        v.expects(Event::Reply(reply)) <==> v.phase is Waiting,
        v.expects(Event::Flushed { gone }) <==> v.phase is Flushing,
        v.expects(Event::Slept) <==> v.phase is Settling,
        v.expects(Event::Sized(asked)) <==> v.phase is Sizing && v.room(asked),
{
}

/// The sender ends as the receiver did: with success exactly where the verdict
/// is good, and otherwise with the receiver's text, if it gave one.
pub proof fn law_the_sender_ends_as_the_receiver_did(
    ok: bool,
    error: Option<String>,
    r: Result<(), Error>,
)
    requires
        ended(ok, error, r),
    ensures
        r is Ok <==> ok,
        !ok ==> (r matches Err(Error::Transfer(m)) && (error matches Some(e) ==> m@ == e@) && (
        error is None ==> m@ == "receiver reported failure"@)),
{
}

/// Places that are passed over are of acknowledged blocks.
proof fn lemma_skipped_are_acked(pending: Seq<u32>, acked: Seq<bool>, pos: int)
    requires
        0 <= pos <= pending.len(),
    ensures
        pos <= next_unacked(pending, acked, pos) <= pending.len(),
        forall|q: int|
            pos <= q < next_unacked(pending, acked, pos) ==> acked[(#[trigger] pending[q]) as int],
    decreases pending.len() - pos,
{
    if pos < pending.len() && acked[pending[pos] as int] {
        lemma_skipped_are_acked(pending, acked, pos + 1);
    }
}

/// A batch is filled from the queue with datagrams of the block at hand, under
/// the transfer's tag, by the plane and the generator as they stand, and as far
/// as a batch has room.
pub proof fn law_a_batch_is_of_the_block_at_hand(v: SenderView, pos: usize)
    ensures
        v.filled(pos) == fill(
            v.transfer_tag,
            v.pending[pos as int],
            v.drop_below,
            v.plane,
            v.rng,
            v.queue,
            v.max_segs,
        ),
{
}

/// What is heard: a report that counts a datagram is handed on with what it
/// says and the sender's own accounts, and one that counts none is not; what
/// was sent is the receiver's span, or without one the sender's own count. A
/// verdict and a lost connection are handed on as such; an acknowledgement is
/// only noted.
pub proof fn law_reports_and_verdicts_are_handed_on(v: SenderView, fb: Feedback, heard: Heard)
    requires
        v.hears(fb, heard),
    ensures
        fb is Decoded ==> heard is Nothing,
        fb matches Feedback::Progress { pkts, span, t_ms } ==> {
            &&& pkts == 0 ==> heard is Nothing
            &&& pkts > 0 ==> {
                &&& heard matches Heard::Report {
                    pkts: p,
                    span: s,
                    sent,
                    bytes_sent,
                    t_ms: t,
                }
                &&& p == pkts && s == span && t == t_ms
                &&& span matches Some(n) ==> sent == n
                &&& span is None ==> sent == v.packets_sent as u64
                &&& bytes_sent == v.bytes_sent as u64
            }
        },
        fb matches Feedback::Done { ok, error } ==> heard == (Heard::Finished { ok, error }),
        fb matches Feedback::Closed(why) ==> (heard matches Heard::Lost(Error::Protocol(m)) && m@
            == "control connection lost: "@ + why@),
{
}

} // verus!
