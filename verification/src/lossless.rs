//! Without loss, one round is enough.
//!
//! Nothing here runs: a sender and a receiver are put on a link that loses
//! nothing and keeps the order, and what comes of it is proved.

use vstd::arithmetic::div_mod::lemma_fundamental_div_mod;
use vstd::prelude::*;
use crate::blocks::{lemma_ceil_div, stored, Layout};
use crate::datagram::{law_plane_round_trip, paired, RxView, TxView};
use crate::digest::{hex_text, sha256};
use crate::error::Error;
use crate::fec::{all_source_carried, carried, coded_size, one_source_block};
use crate::fec::{lemma_one_source_block, lemma_well_formed_is_taken, packet_of, packets_of};
use crate::fec::well_formed;
use crate::recv::{law_every_packet_is_counted, BlockView, DeliveryView, ReceiverView};
use crate::sealed::law_opens_what_was_sealed;
use crate::send::{law_pending_is_what_is_unacked, unset, Feedback};
use crate::sender;
use crate::sender::{law_nothing_goes_back, law_queue_is_of_the_block, next_unacked};
use crate::sender::{Event, Phase, SenderView};
use crate::spray::{advanced, fill, fill_authentic, lasts, law_fill_counts};
use crate::spray::{law_without_drops_all_is_sent, lemma_advanced_seq, lemma_advanced_sum};
use crate::transfer::{closes, law_verdict_reaches_both_sides, lemma_sends};
use crate::wire::Frame;

verus! {

/// A receiver, and what stands in its output.
#[verifier::ext_equal]
pub struct Intake {
    pub r: ReceiverView,
    pub out: Seq<u8>,
}

impl Intake {
    /// After a datagram: what it decodes is written at once.
    pub open spec fn took(self, buf: Seq<u8>) -> Intake {
        let (v, delivery) = self.r.step(buf);
        match delivery {
            DeliveryView::Decoded { block, data } => Intake {
                r: v.wrote(block),
                out: stored(v.layout, self.out, block, data),
            },
            _ => Intake { r: v, ..self },
        }
    }

    /// After datagrams, in order.
    pub open spec fn took_all(self, grams: Seq<Seq<u8>>) -> Intake
        decreases grams.len(),
    {
        if grams.len() == 0 {
            self
        } else {
            self.took_all(grams.drop_last()).took(grams.last())
        }
    }

    /// Each datagram finds the decoders as the receiver promises them.
    pub open spec fn decodes(self, grams: Seq<Seq<u8>>) -> bool
        decreases grams.len(),
    {
        grams.len() == 0 || {
            &&& self.decodes(grams.drop_last())
            &&& self.took_all(grams.drop_last()).r.decodes_next(grams.last())
        }
    }

    /// The output holds the file's bytes wherever a block is done.
    pub open spec fn wrote_only(self, file: Seq<u8>) -> bool {
        &&& self.out.len() == file.len()
        &&& forall|b: int, x: int|
            0 <= b < self.r.blocks.len() && (#[trigger] self.r.blocks[b]) is Done
                && self.r.layout.start(b) <= x < self.r.layout.end(b) ==> #[trigger] self.out[x]
                == file[x]
    }
}

/// A sender and a receiver on a link that loses nothing.
#[verifier::ext_equal]
pub struct Link {
    pub s: SenderView,
    pub to: Intake,
}

/// What can happen on a link.
pub enum Turn {
    /// The sender takes an event; what it sends arrives.
    Event(Event),
    /// The sender hears that a block is done.
    Acked(u32),
}

impl Link {
    /// The link after a turn.
    pub open spec fn turned(self, turn: Turn) -> Link {
        match turn {
            Turn::Event(e) => Link {
                s: self.s.step(e).0,
                to: self.to.took_all(self.s.sends(sender::Move::Event(e))),
            },
            Turn::Acked(b) => Link { s: self.s.told(Feedback::Decoded(b)), ..self },
        }
    }

    /// The turn can be taken: the sender expects the event, the receiver is
    /// there, sequence numbers last, and only a block that is done is
    /// acknowledged. Sender and receiver do what their methods promise.
    pub open spec fn can(self, turn: Turn) -> bool {
        match turn {
            Turn::Event(e) => {
                &&& self.s.can(sender::Move::Event(e))
                &&& e != (Event::Flushed { gone: true })
                &&& self.s.keeps_its_word(e)
                &&& self.s.sprays(e) matches Some((v, pos)) ==> lasts(v.plane, v.queue.len())
                &&& self.to.decodes(self.s.sends(sender::Move::Event(e)))
            },
            Turn::Acked(b) => b < self.to.r.blocks.len() && self.to.r.blocks[b as int] is Done,
        }
    }

    /// The link after turns, in order.
    pub open spec fn after(self, turns: Seq<Turn>) -> Link
        decreases turns.len(),
    {
        if turns.len() == 0 {
            self
        } else {
            self.after(turns.drop_last()).turned(turns.last())
        }
    }

    /// Each turn can be taken when it comes.
    pub open spec fn can_all(self, turns: Seq<Turn>) -> bool
        decreases turns.len(),
    {
        turns.len() == 0 || (self.can_all(turns.drop_last()) && self.after(turns.drop_last()).can(
            turns.last(),
        ))
    }

    /// A transfer that is about to begin: nothing sent, nothing received, no
    /// loss on purpose.
    pub open spec fn fresh(self) -> bool {
        &&& self.s.shaped()
        &&& self.s.layout.wf()
        &&& self.s.layout.codable()
        &&& self.s.data.len() == self.s.layout.file_size
        &&& self.s.phase is Top
        &&& self.s.round == 0
        &&& self.s.drop_below == 0
        &&& self.s.max_segs >= 1
        &&& forall|b: int| 0 <= b < self.s.acked.len() ==> !self.s.acked[b]
        &&& self.to.r.layout == self.s.layout
        &&& self.to.r.transfer_tag == self.s.transfer_tag
        &&& self.to.r.blocks == Seq::new(
            self.s.layout.num_blocks as nat,
            |b: int| BlockView::Pending { packets: Seq::empty() },
        )
        &&& paired(self.s.plane, self.to.r.plane)
        &&& self.to.out.len() == self.s.data.len()
    }

    /// Block `b` was fed nothing.
    spec fn untouched(self, b: int) -> bool {
        self.to.r.blocks[b] == (BlockView::Pending { packets: Seq::empty() })
    }

    /// Every block is done, or untouched and at place `c` of the list or later.
    spec fn done_before(self, c: int) -> bool {
        forall|b: int|
            0 <= b < self.to.r.blocks.len() ==> (#[trigger] self.to.r.blocks[b]) is Done || (
            self.untouched(b) && listed(self.s.pending, c, b))
    }

    /// What holds between the turns.
    spec fn sound(self) -> bool {
        &&& self.s.shaped()
        &&& self.s.even()
        &&& self.s.layout.wf()
        &&& self.s.layout.codable()
        &&& self.s.data.len() == self.s.layout.file_size
        &&& self.s.drop_below == 0
        &&& self.s.max_segs >= 1
        &&& self.to.r.layout == self.s.layout
        &&& self.to.r.transfer_tag == self.s.transfer_tag
        &&& self.to.r.blocks.len() == self.s.layout.num_blocks
        &&& self.to.wrote_only(self.s.data)
        &&& forall|b: int|
            0 <= b < self.s.acked.len() && #[trigger] self.s.acked[b] ==> self.to.r.blocks[b] is Done
        &&& if self.s.round > 0 {
            forall|b: int| 0 <= b < self.to.r.blocks.len() ==> self.to.r.blocks[b] is Done
        } else {
            &&& paired(self.s.plane, self.to.r.plane)
            &&& match self.s.phase {
                Phase::Sizing { pos } => self.done_before(pos as int),
                Phase::Flushing { pos } => self.midway(pos),
                Phase::AfterBlock { pos } => self.done_before(pos + 1),
                _ => forall|b: int|
                    0 <= b < self.to.r.blocks.len() ==> (#[trigger] self.to.r.blocks[b]) is Done
                        || self.untouched(b),
            }
        }
    }

    /// The block at place `pos` is on its way, those before it are done.
    spec fn midway(self, pos: usize) -> bool {
        &&& pos < self.s.pending.len()
        &&& forall|b: int|
            0 <= b < self.to.r.blocks.len() && b != self.s.pending[pos as int] ==> (
            #[trigger] self.to.r.blocks[b]) is Done || (self.untouched(b) && listed(
                self.s.pending,
                pos + 1,
                b,
            ))
        &&& fits(self.s, self.s.pending[pos as int], self.s.queue)
        &&& match self.to.r.blocks[self.s.pending[pos as int] as int] {
            BlockView::Done => true,
            BlockView::Pending { packets } => {
                &&& short_of(self.s, self.s.pending[pos as int], packets)
                &&& enough(self.s, self.s.pending[pos as int], packets + self.s.queue)
            },
        }
    }
}

/// `b` stands in the list at place `c` or later.
spec fn listed(pending: Seq<u32>, c: int, b: int) -> bool {
    exists|p: int| c <= p < pending.len() && (#[trigger] pending[p]) == b
}

/// The packets are well-formed packets of block `b`.
spec fn fits(s: SenderView, b: u32, packets: Seq<Seq<u8>>) -> bool {
    &&& packets_of(s.layout.block(s.data, b as int), s.layout.symbol_size, packets)
    &&& forall|i: int|
        0 <= i < packets.len() ==> well_formed(
            s.layout.len(b as int) as nat,
            s.layout.symbol_size,
            #[trigger] packets[i],
        )
}

/// All source packets of block `b` are among the packets.
spec fn enough(s: SenderView, b: u32, packets: Seq<Seq<u8>>) -> bool {
    all_source_carried(s.layout.len(b as int) as u64, s.layout.symbol_size, packets)
}

/// The packets are such of block `b`, but some source packet is missing.
spec fn short_of(s: SenderView, b: u32, packets: Seq<Seq<u8>>) -> bool {
    &&& fits(s, b, packets)
    &&& !enough(s, b, packets)
}

/// The datagrams of the first `n` packets.
spec fn wires(
    plane: TxView,
    transfer_tag: u64,
    b: u32,
    queue: Seq<Seq<u8>>,
    n: nat,
) -> Seq<Seq<u8>> {
    Seq::new(n, |i: int| advanced(plane, i as nat).wire(transfer_tag, b, queue[i]))
}

proof fn lemma_fill_is_wires(
    transfer_tag: u64,
    b: u32,
    plane: TxView,
    rng: u64,
    queue: Seq<Seq<u8>>,
    room: nat,
)
    requires
        fill_authentic(transfer_tag, b, 0, plane, rng, queue, room),
    ensures
        ({
            let f = fill(transfer_tag, b, 0, plane, rng, queue, room);
            &&& f.taken <= queue.len()
            &&& f.taken == f.grams.len()
            &&& f.grams == wires(plane, transfer_tag, b, queue, f.taken)
            &&& forall|i: int|
                0 <= i < f.taken ==> (#[trigger] advanced(plane, i as nat)).authentic(
                    transfer_tag,
                    b,
                    queue[i],
                )
        }),
    decreases queue.len(),
{
    let f = fill(transfer_tag, b, 0, plane, rng, queue, room);
    if queue.len() > 0 && room > 0 {
        let q = queue.drop_first();
        let r = (room - 1) as nat;
        lemma_fill_is_wires(transfer_tag, b, plane.next(), rng, q, r);
        let rest = fill(transfer_tag, b, 0, plane.next(), rng, q, r);
        let want = wires(plane, transfer_tag, b, queue, f.taken);
        assert(f.grams.len() == want.len());
        assert forall|i: int| 0 <= i < want.len() implies f.grams[i] == want[i] by {
            if i > 0 {
                assert(f.grams[i] == rest.grams[i - 1]);
                assert(advanced(plane, i as nat) == advanced(plane.next(), (i - 1) as nat));
                assert(q[i - 1] == queue[i]);
            }
        }
        assert(f.grams =~= want);
        assert forall|i: int| 0 <= i < f.taken implies (#[trigger] advanced(
            plane,
            i as nat,
        )).authentic(transfer_tag, b, queue[i]) by {
            if i > 0 {
                assert(advanced(plane.next(), (i - 1) as nat).authentic(
                    transfer_tag,
                    b,
                    q[i - 1],
                ));
                assert(q[i - 1] == queue[i]);
            }
        }
    } else {
        assert(f.grams =~= wires(plane, transfer_tag, b, queue, 0));
    }
}

/// Taking the first `n` of a block's datagrams feeds it their packets, or it
/// is done before.
proof fn lemma_took_wires(
    i: Intake,
    s: SenderView,
    plane: TxView,
    b: u32,
    queue: Seq<Seq<u8>>,
    n: nat,
)
    requires
        s.layout.wf(),
        s.layout.codable(),
        s.data.len() == s.layout.file_size,
        b < s.layout.num_blocks,
        i.r.layout == s.layout,
        i.r.blocks.len() == s.layout.num_blocks,
        i.wrote_only(s.data),
        paired(plane, i.r.plane),
        n <= queue.len(),
        lasts(plane, n),
        forall|j: int|
            0 <= j < n ==> (#[trigger] advanced(plane, j as nat)).authentic(
                i.r.transfer_tag,
                b,
                queue[j],
            ),
        fits(s, b, queue),
        i.r.blocks[b as int] matches BlockView::Pending { packets } ==> short_of(s, b, packets),
        i.decodes(wires(plane, i.r.transfer_tag, b, queue, n)),
    ensures
        ({
            let j = i.took_all(wires(plane, i.r.transfer_tag, b, queue, n));
            &&& j.r.layout == i.r.layout
            &&& j.r.transfer_tag == i.r.transfer_tag
            &&& j.r.blocks.len() == i.r.blocks.len()
            &&& j.wrote_only(s.data)
            &&& paired(advanced(plane, n), j.r.plane)
            &&& forall|c: int|
                0 <= c < i.r.blocks.len() && c != b ==> #[trigger] j.r.blocks[c] == i.r.blocks[c]
            &&& match j.r.blocks[b as int] {
                BlockView::Done => true,
                BlockView::Pending { packets } => {
                    &&& short_of(s, b, packets)
                    &&& i.r.blocks[b as int] matches BlockView::Pending { packets: before }
                    &&& packets == before + queue.take(n as int)
                },
            }
        }),
    decreases n,
{
    let tag = i.r.transfer_tag;
    if n == 0 {
        assert(queue.take(0) =~= Seq::empty());
        if let BlockView::Pending { packets } = i.r.blocks[b as int] {
            assert(packets + queue.take(0) =~= packets);
        }
    } else {
        let m = (n - 1) as nat;
        assert(wires(plane, tag, b, queue, n).drop_last() =~= wires(plane, tag, b, queue, m));
        lemma_took_wires(i, s, plane, b, queue, m);
        let w = i.took_all(wires(plane, tag, b, queue, m));
        let tx = advanced(plane, m);
        let p = queue[m as int];
        let gram = tx.wire(tag, b, p);
        lemma_advanced_seq(plane, m);
        lemma_advanced_sum(plane, m, 1);
        assert(advanced(tx, 1) == tx.next()) by {
            reveal_with_fuel(advanced, 2);
        }
        law_plane_round_trip(tx, w.r.plane, tag, b, p);
        s.layout.lemma_bounds(b as int);
        assert(well_formed(s.layout.len(b as int) as nat, s.layout.symbol_size, p));
        assert(one_source_block(s.layout.len(b as int) as nat, s.layout.symbol_size));
        let object = s.layout.block(s.data, b as int);
        if let BlockView::Pending { packets } = w.r.blocks[b as int] {
            let now = packets.push(p);
            let before = i.r.blocks[b as int]->packets;
            assert(now =~= before + queue.take(n as int));
            assert(fits(s, b, now)) by {
                assert forall|k: int| 0 <= k < now.len() implies packet_of(
                    object,
                    s.layout.symbol_size,
                    #[trigger] now[k],
                ) && well_formed(s.layout.len(b as int) as nat, s.layout.symbol_size, now[k]) by {
                    if k < packets.len() {
                        assert(now[k] == packets[k]);
                    }
                }
            }
            lemma_one_source_block(s.layout.len(b as int) as nat, s.layout.symbol_size);
            lemma_well_formed_is_taken(
                s.layout.len(b as int) as u64,
                s.layout.symbol_size,
                now,
            );
            assert(w.r.feeds(gram) == Some((b, p)));
            assert(w.r.fed(b, p) == now);
            assert(w.r.decodes_next(gram));
            let j = w.took(gram);
            if let DeliveryView::Decoded { block, data } = w.r.step(gram).1 {
                assert(data == object);
                assert forall|c: int, x: int|
                    0 <= c < j.r.blocks.len() && (#[trigger] j.r.blocks[c]) is Done
                        && j.r.layout.start(c) <= x < j.r.layout.end(c) implies #[trigger] j.out[x]
                    == s.data[x] by {
                    s.layout.lemma_bounds(c);
                    if s.layout.start(b as int) <= x < s.layout.end(b as int) {
                        assert(j.out[x] == data[x - s.layout.start(b as int)]);
                    } else {
                        assert(c != b);
                        assert(w.r.blocks[c] is Done);
                        assert(j.out[x] == w.out[x]);
                    }
                }
            } else {
                assert(!enough(s, b, now));
            }
        }
    }
}

/// Filling a batch and handing it over keeps the block on its way, or is done
/// with it.
proof fn lemma_pump(u: SenderView, to: Intake, pos: usize)
    requires
        u.layout.wf(),
        u.layout.codable(),
        u.data.len() == u.layout.file_size,
        u.drop_below == 0,
        u.max_segs >= 1,
        forall|i: int| 0 <= i < u.pending.len() ==> #[trigger] u.pending[i] < u.layout.num_blocks,
        to.r.layout == u.layout,
        to.r.transfer_tag == u.transfer_tag,
        to.r.blocks.len() == u.layout.num_blocks,
        to.wrote_only(u.data),
        paired(u.plane, to.r.plane),
        (Link { s: u, to }).midway(pos),
        u.filled_authentic(pos),
        lasts(u.plane, u.queue.len()),
        to.decodes(u.filled(pos).grams),
    ensures
        ({
            let l = Link { s: u.pump(pos).0, to: to.took_all(u.filled(pos).grams) };
            &&& l.to.r.layout == to.r.layout
            &&& l.to.r.transfer_tag == to.r.transfer_tag
            &&& l.to.r.blocks.len() == to.r.blocks.len()
            &&& l.to.wrote_only(u.data)
            &&& paired(l.s.plane, l.to.r.plane)
            &&& match l.s.phase {
                Phase::Flushing { pos: p } => p == pos && l.midway(pos),
                Phase::AfterBlock { pos: p } => p == pos && l.done_before(pos + 1),
                _ => false,
            }
            &&& forall|c: int|
                0 <= c < to.r.blocks.len() && to.r.blocks[c] is Done ==> (
                #[trigger] l.to.r.blocks[c]) is Done
        }),
{
    let b = u.pending[pos as int];
    let f = u.filled(pos);
    let n = f.taken;
    law_fill_counts(u.transfer_tag, b, 0, u.plane, u.rng, u.queue, u.max_segs);
    law_without_drops_all_is_sent(u.transfer_tag, b, u.plane, u.rng, u.queue, u.max_segs);
    lemma_fill_is_wires(u.transfer_tag, b, u.plane, u.rng, u.queue, u.max_segs);
    lemma_took_wires(to, u, u.plane, b, u.queue, n);
    let l = Link { s: u.pump(pos).0, to: to.took_all(f.grams) };
    let rest = u.queue.skip(n as int);
    assert(u.queue.take(n as int) + rest =~= u.queue);
    assert(fits(l.s, b, rest)) by {
        let object = u.layout.block(u.data, b as int);
        assert forall|i: int| 0 <= i < rest.len() implies packet_of(
            object,
            u.layout.symbol_size,
            #[trigger] rest[i],
        ) && well_formed(u.layout.len(b as int) as nat, u.layout.symbol_size, rest[i]) by {
            assert(rest[i] == u.queue[n + i]);
        }
    }
    if let BlockView::Pending { packets } = l.to.r.blocks[b as int] {
        let before = to.r.blocks[b as int]->packets;
        assert(packets + rest =~= before + u.queue);
        if f.grams.len() == 0 {
            assert(packets + rest =~= packets);
        }
    }
    assert forall|c: int| 0 <= c < l.to.r.blocks.len() && c != b implies (
    #[trigger] l.to.r.blocks[c]) is Done || (l.untouched(c) && listed(l.s.pending, pos + 1, c)) by {
        assert(l.to.r.blocks[c] == to.r.blocks[c]);
    }
}

/// Nothing changes a block that is done, nor the output, once all are.
proof fn lemma_all_done_stays(i: Intake, grams: Seq<Seq<u8>>)
    requires
        i.r.blocks.len() == i.r.layout.num_blocks,
        forall|b: int| 0 <= b < i.r.blocks.len() ==> i.r.blocks[b] is Done,
    ensures
        i.took_all(grams).r.blocks == i.r.blocks,
        i.took_all(grams).r.layout == i.r.layout,
        i.took_all(grams).r.transfer_tag == i.r.transfer_tag,
        i.took_all(grams).out == i.out,
    decreases grams.len(),
{
    if grams.len() > 0 {
        lemma_all_done_stays(i, grams.drop_last());
    }
}

/// Places that are passed over are of acknowledged blocks.
proof fn lemma_passed_over(pending: Seq<u32>, acked: Seq<bool>, pos: int)
    requires
        0 <= pos <= pending.len(),
    ensures
        pos <= next_unacked(pending, acked, pos) <= pending.len(),
        forall|q: int|
            pos <= q < next_unacked(pending, acked, pos) ==> acked[(#[trigger] pending[q]) as int],
    decreases pending.len() - pos,
{
    if pos < pending.len() && acked[pending[pos] as int] {
        lemma_passed_over(pending, acked, pos + 1);
    }
}

proof fn lemma_to_block(l: Link, c: int)
    requires
        0 <= c <= l.s.pending.len(),
        l.to.r.blocks.len() == l.s.layout.num_blocks,
        l.s.acked.len() == l.s.layout.num_blocks,
        l.s.round == 0,
        forall|b: int|
            0 <= b < l.s.acked.len() && #[trigger] l.s.acked[b] ==> l.to.r.blocks[b] is Done,
        l.done_before(c),
    ensures
        ({
            let v = l.s.to_block(c).0;
            match v.phase {
                Phase::Sizing { pos } => v.round == 0 && (Link { s: v, ..l }).done_before(
                    pos as int,
                ),
                _ => v.round == 1 && forall|b: int|
                    0 <= b < l.to.r.blocks.len() ==> l.to.r.blocks[b] is Done,
            }
        }),
{
    lemma_passed_over(l.s.pending, l.s.acked, c);
    let p = next_unacked(l.s.pending, l.s.acked, c);
    assert forall|b: int| 0 <= b < l.to.r.blocks.len() implies (#[trigger] l.to.r.blocks[b]) is Done
        || (l.untouched(b) && listed(l.s.pending, p, b)) by {
        if !(l.to.r.blocks[b] is Done) {
            let q = choose|q: int| c <= q < l.s.pending.len() && (#[trigger] l.s.pending[q]) == b;
            if q < p {
                assert(l.s.acked[l.s.pending[q] as int]);
            }
        }
    }
}

proof fn lemma_turn(l: Link, turn: Turn)
    requires
        l.sound(),
        l.can(turn),
    ensures
        l.turned(turn).sound(),
{
    match turn {
        Turn::Acked(b) => {
            lemma_shaped(l.s, sender::Move::Feedback(Feedback::Decoded(b)));
        },
        Turn::Event(e) => {
            lemma_shaped(l.s, sender::Move::Event(e));
            let n = l.turned(turn);
            let grams = l.s.sends(sender::Move::Event(e));
            lemma_sends(l.s, e);
            if l.s.round > 0 {
                lemma_all_done_stays(l.to, grams);
            } else {
                match e {
                    Event::Sized(asked) => {
                        if let Phase::Sizing { pos } = l.s.phase {
                            lemma_queued_is_midway(l, pos, asked);
                            lemma_pump(l.s.queued(pos, asked), l.to, pos);
                        }
                    },
                    Event::Flushed { gone } => {
                        if let Phase::Flushing { pos } = l.s.phase {
                            let u = SenderView { batch: Seq::empty(), receiver_gone: gone, ..l.s };
                            assert((Link { s: u, to: l.to }).midway(pos));
                            lemma_pump(u, l.to, pos);
                        }
                    },
                    Event::Drained => match l.s.phase {
                        Phase::AfterBlock { pos } => {
                            lemma_to_block(l, pos + 1);
                        },
                        Phase::SettleDrain { before } => {},
                        _ => {
                            let v = SenderView {
                                pending: unset(l.s.acked, l.s.acked.len()),
                                ..l.s
                            };
                            let m = Link { s: v, ..l };
                            assert forall|b: int| 0 <= b < m.to.r.blocks.len() implies (
                            #[trigger] m.to.r.blocks[b]) is Done || (m.untouched(b) && listed(
                                m.s.pending,
                                0,
                                b,
                            )) by {
                                if !(m.to.r.blocks[b] is Done) {
                                    law_pending_is_what_is_unacked(l.s.acked, b as u32);
                                    let q = choose|q: int|
                                        0 <= q < v.pending.len() && v.pending[q] == b as u32;
                                    assert(v.pending[q] == b);
                                }
                            }
                            lemma_to_block(m, 0);
                        },
                    },
                    _ => {},
                }
            }
        },
    }
}

proof fn lemma_shaped(s: SenderView, m: sender::Move)
    requires
        s.shaped(),
        s.can(m),
    ensures
        s.moved(m).shaped(),
        s.precedes(s.moved(m)),
{
    let moves = seq![m];
    assert(moves.drop_last() =~= Seq::empty());
    assert(s.after(moves.drop_last()) == s);
    assert(s.can_all(moves.drop_last()));
    assert(s.can_all(moves));
    law_nothing_goes_back(s, moves);
}

proof fn lemma_queued_is_midway(l: Link, pos: usize, asked: u32)
    requires
        l.sound(),
        l.s.round == 0,
        l.s.phase == (Phase::Sizing { pos }),
        l.s.room(asked),
        l.s.ready(pos, asked),
    ensures
        (Link { s: l.s.queued(pos, asked), ..l }).midway(pos),
{
    let u = l.s.queued(pos, asked);
    let m = Link { s: u, ..l };
    let b = l.s.pending[pos as int];
    law_queue_is_of_the_block(l.s, pos, asked);
    assert(fits(u, b, u.queue));
    assert forall|c: int| 0 <= c < m.to.r.blocks.len() && c != b implies (
    #[trigger] m.to.r.blocks[c]) is Done || (m.untouched(c) && listed(u.pending, pos + 1, c)) by {
        assert(l.to.r.blocks[c] is Done || (l.untouched(c) && listed(
            l.s.pending,
            pos as int,
            c,
        )));
        if !(l.to.r.blocks[c] is Done) {
            let q = choose|q: int|
                pos <= q < l.s.pending.len() && (#[trigger] l.s.pending[q]) == c;
            assert(u.pending[q] == c && q >= pos + 1);
        }
    }
    if l.to.r.blocks[b as int] is Pending {
        assert(l.untouched(b as int));
        let none = Seq::<Seq<u8>>::empty();
        assert(none + u.queue =~= u.queue);
        l.s.layout.lemma_bounds(b as int);
        let len = l.s.layout.len(b as int) as u64;
        assert(!enough(u, b, none)) by {
            lemma_ceil_div(len as nat, coded_size(l.s.layout.symbol_size));
            if enough(u, b, none) {
                assert(carried(none, 0));
            }
        }
    }
}

/// Without loss one round is enough: on a link that loses nothing, where the
/// receiver writes what it decodes and the sender hears only of blocks that
/// are done, when round zero is over every block is done and the output is
/// the sender's file. From then on both stay so, whatever happens.
pub proof fn law_without_loss_one_round_is_enough(l: Link, turns: Seq<Turn>)
    requires
        l.fresh(),
        l.can_all(turns),
    ensures
        l.after(turns).s.round > 0 ==> {
            &&& forall|b: int|
                0 <= b < l.after(turns).to.r.blocks.len() ==> l.after(turns).to.r.blocks[b] is Done
            &&& l.after(turns).to.r.blocks.len() == l.s.layout.num_blocks
            &&& l.after(turns).to.out == l.s.data
        },
{
    lemma_turns(l, turns);
    let n = l.after(turns);
    if n.s.round > 0 {
        assert forall|x: int| 0 <= x < l.s.data.len() implies n.to.out[x] == l.s.data[x] by {
            let b = lemma_block_of(l.s.layout, x);
            assert(n.to.r.blocks[b] is Done);
        }
        assert(n.to.out =~= l.s.data);
    }
}

/// Without loss both sides succeed: when round zero is over, and the digest
/// that the receiver was told is the file's, the report is `Done` without an
/// error, and receiver and sender both end with success.
pub proof fn law_without_loss_both_sides_succeed(
    l: Link,
    turns: Seq<Turn>,
    told: Seq<char>,
    error: Option<String>,
    report: Frame,
    receiver: Result<(), Error>,
    heard: Feedback,
    sender: Result<(), Error>,
)
    requires
        l.fresh(),
        l.can_all(turns),
        l.after(turns).s.round > 0,
        told == hex_text(sha256(l.s.data)),
        closes(
            told,
            hex_text(sha256(l.after(turns).to.out)),
            error,
            report,
            receiver,
            heard,
            sender,
        ),
    ensures
        error is None,
        report == (Frame::Done { ok: true, error: None }),
        receiver is Ok,
        sender is Ok,
{
    law_without_loss_one_round_is_enough(l, turns);
    law_verdict_reaches_both_sides(
        l.after(turns).s,
        told,
        hex_text(sha256(l.after(turns).to.out)),
        error,
        report,
        receiver,
        heard,
        sender,
    );
}

proof fn lemma_turns(l: Link, turns: Seq<Turn>)
    requires
        l.fresh(),
        l.can_all(turns),
    ensures
        l.after(turns).sound(),
        l.after(turns).s.layout == l.s.layout,
        l.after(turns).s.data == l.s.data,
    decreases turns.len(),
{
    if turns.len() > 0 {
        let w = l.after(turns.drop_last());
        lemma_turns(l, turns.drop_last());
        lemma_turn(w, turns.last());
        match turns.last() {
            Turn::Event(e) => {
                lemma_shaped(w.s, sender::Move::Event(e));
            },
            _ => {},
        }
    }
}

/// The block that byte `x` lies in.
proof fn lemma_block_of(l: Layout, x: int) -> (b: int)
    requires
        l.wf(),
        0 <= x < l.file_size,
    ensures
        0 <= b < l.num_blocks,
        l.start(b) <= x < l.end(b),
{
    let s = l.block_size as int;
    let b = x / s;
    lemma_fundamental_div_mod(x, s);
    lemma_ceil_div(l.file_size as nat, l.block_size as nat);
    assert(0 <= b && b * s <= x < b * s + s && b < l.num_blocks) by (nonlinear_arith)
        requires
            x == s * b + x % s,
            0 <= x % s < s,
            0 <= x < l.file_size,
            l.file_size <= s * l.num_blocks,
    ;
    b
}

/// Taking datagrams of packets counts each of them, and the highest number is
/// that of the last.
proof fn lemma_took_counts(i: Intake, plane: TxView, b: u32, queue: Seq<Seq<u8>>, n: nat)
    requires
        paired(plane, i.r.plane),
        n <= queue.len(),
        lasts(plane, n),
        forall|j: int| 0 <= j < n ==> (#[trigger] queue[j]).len() >= 4,
        forall|j: int|
            0 <= j < n ==> (#[trigger] advanced(plane, j as nat)).authentic(
                i.r.transfer_tag,
                b,
                queue[j],
            ),
    ensures
        ({
            let j = i.took_all(wires(plane, i.r.transfer_tag, b, queue, n));
            &&& j.r.transfer_tag == i.r.transfer_tag
            &&& j.r.pkts == i.r.pkts + n
            &&& paired(advanced(plane, n), j.r.plane)
            &&& n == 0 ==> j.r.plane == i.r.plane
            &&& plane matches TxView::Sealed { key, seq } ==> (n > 0 ==> j.r.plane.highest()
                == Some((seq + n - 1) as u64))
        }),
    decreases n,
{
    let tag = i.r.transfer_tag;
    if n > 0 {
        let m = (n - 1) as nat;
        assert(wires(plane, tag, b, queue, n).drop_last() =~= wires(plane, tag, b, queue, m));
        lemma_took_counts(i, plane, b, queue, m);
        let w = i.took_all(wires(plane, tag, b, queue, m));
        let tx = advanced(plane, m);
        let p = queue[m as int];
        let gram = tx.wire(tag, b, p);
        lemma_advanced_seq(plane, m);
        lemma_advanced_sum(plane, m, 1);
        assert(advanced(tx, 1) == tx.next()) by {
            reveal_with_fuel(advanced, 2);
        }
        law_plane_round_trip(tx, w.r.plane, tag, b, p);
        law_every_packet_is_counted(w.r, gram);
        assert(w.took(gram).r.pkts == w.r.pkts + 1);
        assert(w.took(gram).r.plane == w.r.plane.after(tag, gram));
        if let TxView::Sealed { key, seq } = tx {
            if let RxView::Sealed { key: k, window } = w.r.plane {
                law_opens_what_was_sealed(key, window, tag, seq, b, p, gram);
            }
        }
    }
}

impl Link {
    /// Nothing was counted yet on either side.
    pub open spec fn uncounted(self) -> bool {
        &&& self.s.packets_sent == 0
        &&& self.to.r.pkts == 0
        &&& self.s.plane matches TxView::Sealed { key, seq } ==> seq == 0
        &&& self.to.r.plane.highest() is None
    }

    /// Both sides have counted the same.
    spec fn counted(self) -> bool {
        &&& self.s.shaped()
        &&& self.s.even()
        &&& self.s.drop_below == 0
        &&& self.to.r.transfer_tag == self.s.transfer_tag
        &&& paired(self.s.plane, self.to.r.plane)
        &&& self.to.r.pkts == self.s.packets_sent
        &&& self.s.plane matches TxView::Sealed { key, seq } ==> {
            &&& seq == self.s.packets_sent
            &&& seq == 0 ==> self.to.r.plane.highest() is None
            &&& seq > 0 ==> self.to.r.plane.highest() == Some((seq - 1) as u64)
        }
    }
}

proof fn lemma_turn_counts(l: Link, turn: Turn)
    requires
        l.counted(),
        l.can(turn),
    ensures
        l.turned(turn).counted(),
{
    match turn {
        Turn::Acked(b) => {
            lemma_shaped(l.s, sender::Move::Feedback(Feedback::Decoded(b)));
        },
        Turn::Event(e) => {
            lemma_shaped(l.s, sender::Move::Event(e));
            lemma_sends(l.s, e);
            if let Some((u, pos)) = l.s.sprays(e) {
                let b = u.pending[pos as int];
                let f = u.filled(pos);
                law_fill_counts(u.transfer_tag, b, 0, u.plane, u.rng, u.queue, u.max_segs);
                lemma_fill_is_wires(u.transfer_tag, b, u.plane, u.rng, u.queue, u.max_segs);
                assert forall|j: int| 0 <= j < f.taken implies (#[trigger] u.queue[j]).len()
                    >= 4 by {}
                lemma_took_counts(l.to, u.plane, b, u.queue, f.taken);
                lemma_advanced_seq(u.plane, f.taken);
                lemma_advanced_kind(u.plane, f.taken);
            }
        },
    }
}

proof fn lemma_advanced_kind(plane: TxView, n: nat)
    ensures
        advanced(plane, n) is Plain <==> plane is Plain,
    decreases n,
{
    if n > 0 {
        lemma_advanced_kind(plane.next(), (n - 1) as nat);
    }
}

proof fn lemma_turns_count(l: Link, turns: Seq<Turn>)
    requires
        l.counted(),
        l.can_all(turns),
    ensures
        l.after(turns).counted(),
    decreases turns.len(),
{
    if turns.len() > 0 {
        lemma_turns_count(l, turns.drop_last());
        lemma_turn_counts(l.after(turns.drop_last()), turns.last());
    }
}

/// Without loss none is measured: at any time the receiver has counted exactly
/// the packets that the sender sent, those of blocks that were done included,
/// and on a sealed link that is exactly the span that it reports.
pub proof fn law_without_loss_none_is_measured(l: Link, turns: Seq<Turn>)
    requires
        l.fresh(),
        l.uncounted(),
        l.can_all(turns),
    ensures
        ({
            let n = l.after(turns);
            &&& n.to.r.pkts == n.s.packets_sent
            &&& n.to.r.plane is Sealed && n.to.r.pkts > 0 ==> n.to.r.plane.span() == Some(
                n.to.r.pkts as u64,
            )
        }),
{
    lemma_turns_count(l, turns);
}

} // verus!
