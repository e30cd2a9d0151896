//! What holds of a sender and a receiver together.
//!
//! Nothing here runs: these are the laws that join the two sides of a
//! transfer, over any run of either and any network between them.

use vstd::prelude::*;
use crate::blocks::{ceil_div, Layout};
use crate::datagram::{law_opens_only_to_what_was_encoded, same_session, RxView, TxView};
use crate::digest::{hex_text, sha256};
use crate::error::Error;
use crate::fec::{carried, coded_size, coded_symbols, packet_of, packets_of, payload_id};
use crate::fec::PAYLOAD_ID_LEN;
use crate::recv;
use crate::recv::{concluded, countable, described, greeted, judged, mismatch_text, reported};
use crate::recv::{Greeting, Incoming};
use crate::recv::{law_a_run_decodes_the_file, law_all_source_packets_hand_out_the_block};
use crate::recv::{law_the_file_arrives, BlockView, ReceiverView};
use crate::send::{agreed, answered, heard_as, manifest_of, Feedback};
use crate::sender;
use crate::sender::{ended, ActionView};
use crate::sender::{law_each_packet_takes_one_number, law_nothing_goes_back};
use crate::sender::{law_queue_is_of_the_block, lemma_filled_is_cut_back, Event, Phase};
use crate::sender::SenderView;
use crate::spray::{advanced, concat, draw, fill, fill_authentic, law_fill_counts, piece};
use crate::spray::{lemma_advanced_wire_len, scrambled};
use crate::wire::{Frame, VERSION};

verus! {

/// `buf` is the datagram of a packet of `file`, encoded on a plane of the
/// receiver's session.
pub open spec fn genuine(
    rx: RxView,
    transfer_tag: u64,
    layout: Layout,
    file: Seq<u8>,
    buf: Seq<u8>,
) -> bool {
    exists|tx: TxView, b: u32, p: Seq<u8>|
        {
            &&& #[trigger] tx.authentic(transfer_tag, b, p)
            &&& same_session(tx, rx)
            &&& buf == tx.wire(transfer_tag, b, p)
            &&& b < layout.num_blocks
            &&& packet_of(layout.block(file, b as int), layout.symbol_size, p)
        }
}

impl SenderView {
    /// What waits to be sent are packets of the block at hand.
    pub open spec fn loaded(self) -> bool {
        self.phase matches Phase::Flushing { pos } ==> packets_of(
            self.layout.block(self.data, self.pending[pos as int] as int),
            self.layout.symbol_size,
            self.queue,
        )
    }

    /// The datagrams that a move puts in a batch.
    pub open spec fn put(self, m: sender::Move) -> Seq<Seq<u8>> {
        match m {
            sender::Move::Event(event) => match self.sprays(event) {
                Some((v, pos)) => v.filled(pos).grams,
                None => Seq::empty(),
            },
            _ => Seq::empty(),
        }
    }

    /// The batch, cut every segment length.
    pub open spec fn pieces(self) -> Seq<Seq<u8>> {
        Seq::new(
            ceil_div(self.batch.len(), self.seg()),
            |i: int| piece(self.batch, self.seg(), i),
        )
    }

    /// The datagrams that a move sends: the batch that it leaves, cut every
    /// segment length.
    pub open spec fn sends(self, m: sender::Move) -> Seq<Seq<u8>> {
        match m {
            sender::Move::Event(event) => if self.sprays(event) is Some {
                self.step(event).0.pieces()
            } else {
                Seq::empty()
            },
            _ => Seq::empty(),
        }
    }

    /// The datagrams that a run sends, in order.
    pub open spec fn sent(self, moves: Seq<sender::Move>) -> Seq<Seq<u8>>
        decreases moves.len(),
    {
        if moves.len() == 0 {
            Seq::empty()
        } else {
            self.sent(moves.drop_last()) + self.after(moves.drop_last()).sends(moves.last())
        }
    }

    /// The event makes what [`crate::sender::Sender::next`] promises: packets
    /// that a decoder takes, and datagrams that a holder of the key accepts.
    pub open spec fn keeps_its_word(self, event: Event) -> bool {
        &&& self.sprays(event) matches Some((v, pos)) ==> v.filled_authentic(pos)
        &&& event matches Event::Sized(asked) ==> (self.phase matches Phase::Sizing { pos }
            ==> self.ready(pos, asked))
    }

    /// Each event of the run makes what is promised of it.
    pub open spec fn seals(self, moves: Seq<sender::Move>) -> bool
        decreases moves.len(),
    {
        moves.len() == 0 || {
            &&& self.seals(moves.drop_last())
            &&& moves.last() matches sender::Move::Event(event) ==> self.after(
                moves.drop_last(),
            ).keeps_its_word(event)
        }
    }

    /// The packets that wait to be sent hold a symbol each.
    pub open spec fn even(self) -> bool {
        self.phase is Flushing ==> forall|i: int|
            0 <= i < self.queue.len() ==> (#[trigger] self.queue[i]).len() == PAYLOAD_ID_LEN
                + coded_size(self.layout.symbol_size)
    }
}

proof fn lemma_loaded(v: SenderView, m: sender::Move)
    requires
        v.shaped(),
        v.loaded(),
        v.can(m),
    ensures
        v.moved(m).loaded(),
        m matches sender::Move::Event(event) ==> (v.sprays(event) matches Some((w, pos)) ==> {
            &&& pos < v.pending.len()
            &&& w.pending == v.pending
            &&& w.plane == v.plane
            &&& w.layout == v.layout
            &&& w.data == v.data
            &&& w.transfer_tag == v.transfer_tag
            &&& packets_of(
                v.layout.block(v.data, v.pending[pos as int] as int),
                v.layout.symbol_size,
                w.queue,
            )
        }),
{
    match m {
        sender::Move::Event(Event::Sized(asked)) => {
            if let Phase::Sizing { pos } = v.phase {
                law_queue_is_of_the_block(v, pos, asked);
                lemma_rest_is_of_the_block(v.queued(pos, asked), pos);
            }
        },
        sender::Move::Event(Event::Flushed { gone }) => {
            if let Phase::Flushing { pos } = v.phase {
                lemma_rest_is_of_the_block(
                    SenderView { batch: Seq::empty(), receiver_gone: gone, ..v },
                    pos,
                );
            }
        },
        _ => {},
    }
}

proof fn lemma_rest_is_of_the_block(v: SenderView, pos: usize)
    requires
        packets_of(
            v.layout.block(v.data, v.pending[pos as int] as int),
            v.layout.symbol_size,
            v.queue,
        ),
    ensures
        packets_of(
            v.layout.block(v.data, v.pending[pos as int] as int),
            v.layout.symbol_size,
            v.pump(pos).0.queue,
        ),
{
    law_fill_counts(
        v.transfer_tag,
        v.pending[pos as int],
        v.drop_below,
        v.plane,
        v.rng,
        v.queue,
        v.max_segs,
    );
    let taken = v.filled(pos).taken as int;
    let rest = v.queue.skip(taken);
    assert forall|j: int| 0 <= j < rest.len() implies packet_of(
        v.layout.block(v.data, v.pending[pos as int] as int),
        v.layout.symbol_size,
        #[trigger] rest[j],
    ) by {
        assert(rest[j] == v.queue[taken + j]);
    }
}

proof fn lemma_even(v: SenderView, event: Event)
    requires
        v.even(),
        v.keeps_its_word(event),
    ensures
        v.step(event).0.even(),
        v.sprays(event) matches Some((w, pos)) ==> {
            let grams = w.filled(pos).grams;
            let after = v.step(event).0;
            &&& after.batch == concat(grams)
            &&& w.seg() == v.seg()
            &&& after.seg() == v.seg()
            &&& ceil_div(after.batch.len(), v.seg()) == grams.len()
            &&& forall|i: int|
                0 <= i < grams.len() ==> piece(after.batch, v.seg(), i) == #[trigger] grams[i]
        },
{
    if let Some((w, pos)) = v.sprays(event) {
        let size = PAYLOAD_ID_LEN + coded_size(v.layout.symbol_size);
        assert forall|i: int| 0 <= i < w.queue.len() implies (#[trigger] w.queue[i]).len()
            == size by {}
        lemma_filled_is_cut_back(w, pos);
        law_fill_counts(
            w.transfer_tag,
            w.pending[pos as int],
            w.drop_below,
            w.plane,
            w.rng,
            w.queue,
            w.max_segs,
        );
        lemma_advanced_wire_len(w.plane, w.filled(pos).taken, size as nat);
        let taken = w.filled(pos).taken as int;
        let rest = w.queue.skip(taken);
        assert forall|i: int| 0 <= i < rest.len() implies (#[trigger] rest[i]).len() == size by {
            assert(rest[i] == w.queue[taken + i]);
        }
    }
}

/// Every batch is cut back: over any run, the datagrams that a next move
/// sends, which are the batch that it leaves cut every segment length, are
/// those that it put into the batch.
pub proof fn law_every_batch_is_cut_back(
    v: SenderView,
    moves: Seq<sender::Move>,
    next: sender::Move,
)
    requires
        v.even(),
        v.seals(moves.push(next)),
    ensures
        v.after(moves).sends(next) == v.after(moves).put(next),
        v.after(moves).even(),
        v.after(moves.push(next)).even(),
{
    assert(moves.push(next).drop_last() =~= moves);
    lemma_even_over(v, moves);
    lemma_even_over(v, moves.push(next));
    if let sender::Move::Event(event) = next {
        lemma_sends(v.after(moves), event);
    }
}

/// What an event sends is what it put into the batch.
pub proof fn lemma_sends(v: SenderView, event: Event)
    requires
        v.even(),
        v.keeps_its_word(event),
    ensures
        v.step(event).0.even(),
        v.sends(sender::Move::Event(event)) == v.put(sender::Move::Event(event)),
{
    lemma_even(v, event);
    if v.sprays(event) is Some {
        let grams = v.put(sender::Move::Event(event));
        assert(v.step(event).0.pieces() =~= grams);
    }
}

proof fn lemma_even_over(v: SenderView, moves: Seq<sender::Move>)
    requires
        v.even(),
        v.seals(moves),
    ensures
        v.after(moves).even(),
    decreases moves.len(),
{
    if moves.len() > 0 {
        lemma_even_over(v, moves.drop_last());
        if let sender::Move::Event(e) = moves.last() {
            lemma_even(v.after(moves.drop_last()), e);
        }
    }
}

proof fn lemma_batch_is_genuine(
    transfer_tag: u64,
    block: u32,
    drop_below: u64,
    plane: TxView,
    rng: u64,
    queue: Seq<Seq<u8>>,
    room: nat,
    rx: RxView,
    layout: Layout,
    file: Seq<u8>,
)
    requires
        block < layout.num_blocks,
        same_session(plane, rx),
        packets_of(layout.block(file, block as int), layout.symbol_size, queue),
        fill_authentic(transfer_tag, block, drop_below, plane, rng, queue, room),
    ensures
        ({
            let grams = fill(transfer_tag, block, drop_below, plane, rng, queue, room).grams;
            forall|i: int|
                0 <= i < grams.len() ==> genuine(
                    rx,
                    transfer_tag,
                    layout,
                    file,
                    #[trigger] grams[i],
                )
        }),
    decreases queue.len(),
{
    if queue.len() > 0 && room > 0 {
        let drawn = if drop_below > 0 {
            scrambled(rng)
        } else {
            rng
        };
        let lost = drop_below > 0 && draw(drawn) < drop_below;
        let r = if lost {
            room
        } else {
            (room - 1) as nat
        };
        let q = queue.drop_first();
        assert forall|j: int| 0 <= j < q.len() implies packet_of(
            layout.block(file, block as int),
            layout.symbol_size,
            #[trigger] q[j],
        ) by {
            assert(q[j] == queue[j + 1]);
        }
        lemma_batch_is_genuine(
            transfer_tag,
            block,
            drop_below,
            plane.next(),
            drawn,
            q,
            r,
            rx,
            layout,
            file,
        );
        if !lost {
            let gram = plane.wire(transfer_tag, block, queue[0]);
            assert(plane.authentic(transfer_tag, block, queue[0]));
            assert(packet_of(layout.block(file, block as int), layout.symbol_size, queue[0]));
            assert(genuine(rx, transfer_tag, layout, file, gram));
            let rest = fill(transfer_tag, block, drop_below, plane.next(), drawn, q, r).grams;
            let all = seq![gram] + rest;
            assert forall|i: int| 0 <= i < all.len() implies genuine(
                rx,
                transfer_tag,
                layout,
                file,
                #[trigger] all[i],
            ) by {
                if i > 0 {
                    assert(all[i] == rest[i - 1]);
                }
            }
        }
    }
}

/// Every datagram that a sender sends, over any run, is one of a packet of its
/// file.
pub proof fn law_what_is_sent_is_of_the_file(
    v: SenderView,
    moves: Seq<sender::Move>,
    rx: RxView,
)
    requires
        v.shaped(),
        v.loaded(),
        v.even(),
        v.can_all(moves),
        v.seals(moves),
        same_session(v.plane, rx),
    ensures
        v.after(moves).loaded(),
        same_session(v.after(moves).plane, rx),
        forall|i: int|
            0 <= i < v.sent(moves).len() ==> genuine(
                rx,
                v.transfer_tag,
                v.layout,
                v.data,
                #[trigger] v.sent(moves)[i],
            ),
    decreases moves.len(),
{
    if moves.len() > 0 {
        let front = moves.drop_last();
        let m = moves.last();
        let u = v.after(front);
        law_what_is_sent_is_of_the_file(v, front, rx);
        law_nothing_goes_back(v, front);
        lemma_loaded(u, m);
        law_each_packet_takes_one_number(v, moves);
        lemma_session_lasts(
            v.plane,
            (v.after(moves).packets_sent - v.packets_sent) as nat,
            rx,
        );
        if let sender::Move::Event(event) = m {
            lemma_even_over(v, front);
            lemma_sends(u, event);
            if let Some((w, pos)) = u.sprays(event) {
                assert(u.pending[pos as int] < u.layout.num_blocks);
                lemma_batch_is_genuine(
                    w.transfer_tag,
                    w.pending[pos as int],
                    w.drop_below,
                    w.plane,
                    w.rng,
                    w.queue,
                    w.max_segs,
                    rx,
                    v.layout,
                    v.data,
                );
            }
        }
        let before = v.sent(front);
        let all = v.sent(moves);
        assert forall|i: int| 0 <= i < all.len() implies genuine(
            rx,
            v.transfer_tag,
            v.layout,
            v.data,
            #[trigger] all[i],
        ) by {
            if i < before.len() {
                assert(all[i] == before[i]);
            } else {
                assert(all[i] == u.sends(m)[i - before.len()]);
            }
        }
    }
}

proof fn lemma_session_lasts(plane: TxView, n: nat, rx: RxView)
    requires
        same_session(plane, rx),
    ensures
        same_session(advanced(plane, n), rx),
    decreases n,
{
    if n > 0 {
        lemma_session_lasts(plane.next(), (n - 1) as nat, rx);
    }
}

impl ReceiverView {
    /// Each datagram that the run opens is one of `grams`.
    pub open spec fn opens_only(self, moves: Seq<recv::Move>, grams: Seq<Seq<u8>>) -> bool
        decreases moves.len(),
    {
        moves.len() == 0 || {
            let w = self.after(moves.drop_last());
            &&& self.opens_only(moves.drop_last(), grams)
            &&& moves.last() matches recv::Move::Datagram(buf) ==> w.plane.opened(
                w.transfer_tag,
                buf,
            ) is Some ==> grams.contains(buf)
        }
    }
}

/// A receiver that opens only datagrams of `file` is fed by that file. Which
/// of them arrive, in which order and how often makes no difference.
pub proof fn law_datagrams_of_the_file_feed_the_file(
    v: ReceiverView,
    moves: Seq<recv::Move>,
    grams: Seq<Seq<u8>>,
    file: Seq<u8>,
)
    requires
        v.opens_only(moves, grams),
        forall|i: int|
            0 <= i < grams.len() ==> genuine(
                v.plane,
                v.transfer_tag,
                v.layout,
                file,
                #[trigger] grams[i],
            ),
    ensures
        v.carries(moves, file),
        v.after(moves).layout == v.layout,
        v.after(moves).transfer_tag == v.transfer_tag,
        forall|tx: TxView|
            same_session(tx, v.plane) ==> #[trigger] same_session(tx, v.after(moves).plane),
    decreases moves.len(),
{
    if moves.len() > 0 {
        let front = moves.drop_last();
        let w = v.after(front);
        law_datagrams_of_the_file_feed_the_file(v, front, grams, file);
        assert forall|tx: TxView| same_session(tx, v.plane) implies #[trigger] same_session(
            tx,
            v.after(moves).plane,
        ) by {
            assert(same_session(tx, w.plane));
        }
        if let recv::Move::Datagram(buf) = moves.last() {
            if let Some((c, q)) = w.feeds(buf) {
                let i = choose|i: int| 0 <= i < grams.len() && grams[i] == buf;
                assert(genuine(v.plane, v.transfer_tag, v.layout, file, grams[i]));
                let (tx, b, p) = choose|tx: TxView, b: u32, p: Seq<u8>|
                    {
                        &&& #[trigger] tx.authentic(v.transfer_tag, b, p)
                        &&& same_session(tx, v.plane)
                        &&& buf == tx.wire(v.transfer_tag, b, p)
                        &&& b < v.layout.num_blocks
                        &&& packet_of(v.layout.block(file, b as int), v.layout.symbol_size, p)
                    };
                assert(same_session(tx, w.plane));
                law_opens_only_to_what_was_encoded(tx, w.plane, v.transfer_tag, b, p);
            }
        }
    }
}

/// Round zero is enough: a block that was fed every packet that the sender
/// queued for it in round zero, among whatever other packets of the file, was
/// handed out, and what was handed out is the sender's block.
pub proof fn law_round_zero_hands_out_the_block(
    s: SenderView,
    pos: usize,
    asked: u32,
    r: ReceiverView,
    receiving: Seq<recv::Move>,
)
    requires
        s.shaped(),
        s.layout.codable(),
        s.round == 0,
        s.phase == (Phase::Sizing { pos }),
        s.ready(pos, asked),
        r.layout == s.layout,
        r.fed_by(s.data),
        r.blocks[s.pending[pos as int] as int] == (BlockView::Pending { packets: Seq::empty() }),
        r.can_all(receiving),
        r.carries(receiving, s.data),
        r.decodes(receiving),
        r.after(receiving).blocks[s.pending[pos as int] as int] matches BlockView::Pending {
            packets,
        } && forall|i: int|
            0 <= i < s.queued(pos, asked).queue.len() ==> packets.contains(
                #[trigger] s.queued(pos, asked).queue[i],
            ),
    ensures
        r.held(receiving, s.pending[pos as int]) == Some(
            s.layout.block(s.data, s.pending[pos as int] as int),
        ),
{
    let b = s.pending[pos as int];
    let packets = r.after(receiving).blocks[b as int]->packets;
    let queue = s.queued(pos, asked).queue;
    s.layout.lemma_bounds(b as int);
    let len = s.layout.len(b as int) as u64;
    let size = s.layout.symbol_size;
    assert forall|esi: int| 0 <= esi < coded_symbols(len as nat, size) implies #[trigger] carried(
        packets,
        esi,
    ) by {
        assert(carried(queue, esi));
        let i = choose|i: int|
            0 <= i < queue.len() && (#[trigger] queue[i]).subrange(0, 4) == payload_id(esi);
        let j = choose|j: int| 0 <= j < packets.len() && packets[j] == queue[i];
        assert(packets[j].subrange(0, 4) == payload_id(esi));
    }
    law_all_source_packets_hand_out_the_block(r, receiving, b);
    law_a_run_decodes_the_file(r, receiving, s.data, b);
}

/// The file goes through. Let a sender and a receiver of one session, one
/// transfer tag and one layout run in any way, and let the receiver open
/// nothing but what this sender sent: whatever was lost, repeated or
/// reordered on the way, once the receiver, having begun with nothing and
/// written what it was handed, has every block done, its output is the
/// sender's file.
pub proof fn law_the_file_goes_through(
    s: SenderView,
    sending: Seq<sender::Move>,
    r: ReceiverView,
    receiving: Seq<recv::Move>,
    out: Seq<u8>,
)
    requires
        s.shaped(),
        s.loaded(),
        s.even(),
        s.layout.codable(),
        s.can_all(sending),
        s.seals(sending),
        same_session(s.plane, r.plane),
        r.layout == s.layout,
        r.transfer_tag == s.transfer_tag,
        r.fed_by(s.data),
        forall|b: int| 0 <= b < r.blocks.len() ==> r.blocks[b] is Pending,
        r.can_all(receiving),
        r.opens_only(receiving, s.sent(sending)),
        r.decodes(receiving),
        r.writes_what_it_held(receiving),
        forall|b: int| 0 <= b < r.blocks.len() ==> r.after(receiving).blocks[b] is Done,
        out.len() == s.data.len(),
    ensures
        r.output(receiving, out) == s.data,
{
    law_what_is_sent_is_of_the_file(s, sending, r.plane);
    law_datagrams_of_the_file_feed_the_file(r, receiving, s.sent(sending), s.data);
    law_the_file_arrives(r, receiving, s.data, out);
}

/// The handshake comes to an agreement: of what the sender says, the receiver
/// takes over the tag, the digest and the layout, and of what the receiver
/// says, the sender takes over the port. Where both speak one version and the
/// layout is sound, no step of it fails.
pub proof fn law_handshake_agrees(
    transfer_tag: u64,
    udp_port: u16,
    file_name: String,
    sha256: String,
    layout: Layout,
    greeting: Greeting,
    port: Result<u16, Error>,
    incoming: Result<Incoming, Error>,
    end: Result<(), Error>,
)
    requires
        layout.wf(),
        greeted(Frame::Hello { version: VERSION, transfer_tag }, greeting),
        answered(Frame::HelloAck { udp_port }, port),
        described(manifest_of(file_name, sha256, layout), incoming),
        agreed(Frame::ManifestAck, end),
    ensures
        greeting == (Greeting::Accepted { transfer_tag }),
        port == Ok::<u16, Error>(udp_port),
        countable(manifest_of(file_name, sha256, layout)),
        incoming matches Ok(inc) && inc.file_name == file_name && inc.sha256 == sha256
            && inc.layout == layout,
        end is Ok,
{
}

/// How a transfer ends: the receiver compares the digests, reports the
/// verdict and concludes; the sender hears the report and ends by it.
pub open spec fn closes(
    expected: Seq<char>,
    actual: Seq<char>,
    error: Option<String>,
    report: Frame,
    receiver: Result<(), Error>,
    heard: Feedback,
    sender: Result<(), Error>,
) -> bool {
    &&& judged(expected, actual, error)
    &&& reported(error, report)
    &&& concluded(error, receiver)
    &&& heard_as(report, heard)
    &&& heard matches Feedback::Done { ok, error: text } ==> ended(ok, text, sender)
}

/// The verdict reaches both sides: where the digests are equal the report is
/// `Done` without an error and both sides succeed; where they differ both
/// fail, with the same text. Whatever the sender's state, it finishes by this
/// report.
pub proof fn law_verdict_reaches_both_sides(
    v: SenderView,
    expected: Seq<char>,
    actual: Seq<char>,
    error: Option<String>,
    report: Frame,
    receiver: Result<(), Error>,
    heard: Feedback,
    sender: Result<(), Error>,
)
    requires
        closes(expected, actual, error, report, receiver, heard, sender),
    ensures
        v.step(Event::Reply(Some(heard))).1 is Finish,
        expected == actual ==> {
            &&& error is None
            &&& report == (Frame::Done { ok: true, error: None })
            &&& v.step(Event::Reply(Some(heard))).1 == (ActionView::Finish {
                ok: true,
                error: None,
            })
            &&& receiver is Ok
            &&& sender is Ok
        },
        expected != actual ==> {
            &&& receiver matches Err(Error::Transfer(m)) && m@ == mismatch_text(expected, actual)
            &&& sender matches Err(Error::Transfer(m)) && m@ == mismatch_text(expected, actual)
        },
{
}

/// A complete transfer succeeds on both sides: where the file goes through,
/// and the digest that the receiver was told is the file's, the output is the
/// file, and receiver and sender both end with success.
pub proof fn law_a_complete_transfer_succeeds(
    s: SenderView,
    sending: Seq<sender::Move>,
    r: ReceiverView,
    receiving: Seq<recv::Move>,
    out: Seq<u8>,
    told: Seq<char>,
    error: Option<String>,
    report: Frame,
    receiver: Result<(), Error>,
    heard: Feedback,
    sender: Result<(), Error>,
)
    requires
        s.shaped(),
        s.loaded(),
        s.even(),
        s.layout.codable(),
        s.can_all(sending),
        s.seals(sending),
        same_session(s.plane, r.plane),
        r.layout == s.layout,
        r.transfer_tag == s.transfer_tag,
        r.fed_by(s.data),
        forall|b: int| 0 <= b < r.blocks.len() ==> r.blocks[b] is Pending,
        r.can_all(receiving),
        r.opens_only(receiving, s.sent(sending)),
        r.decodes(receiving),
        r.writes_what_it_held(receiving),
        forall|b: int| 0 <= b < r.blocks.len() ==> r.after(receiving).blocks[b] is Done,
        out.len() == s.data.len(),
        told == hex_text(sha256(s.data)),
        closes(
            told,
            hex_text(sha256(r.output(receiving, out))),
            error,
            report,
            receiver,
            heard,
            sender,
        ),
    ensures
        r.output(receiving, out) == s.data,
        report == (Frame::Done { ok: true, error: None }),
        receiver is Ok,
        sender is Ok,
{
    law_the_file_goes_through(s, sending, r, receiving, out);
    law_verdict_reaches_both_sides(
        s,
        told,
        hex_text(sha256(r.output(receiving, out))),
        error,
        report,
        receiver,
        heard,
        sender,
    );
}

} // verus!
