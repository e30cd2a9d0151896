//! Filling a batch buffer with datagrams.
//!
//! A batch takes packets off a queue until it holds as many datagrams as one
//! send may carry or the queue is empty. For tests a share of the packets can
//! be lost on purpose; those use up sequence numbers as a real loss would.

use vstd::prelude::*;
use crate::blocks::ceil_div;
use crate::datagram::{law_plane_round_trip, law_wire_len_is_the_datagrams_length, paired};
use crate::datagram::{RxView, TxPlane, TxView};
use crate::udp::cut;

verus! {

/// Longest payload: a payload id and the largest symbol.
pub const MAX_PAYLOAD: usize = 65539;

/// The generator's state after one more draw (xorshift64).
pub open spec fn scrambled(x: u64) -> u64 {
    let a = x ^ (x << 13);
    let b = a ^ (a >> 7);
    b ^ (b << 17)
}

/// The draw that a state gives: the top 53 bits of the state times an odd
/// constant.
pub open spec fn draw(x: u64) -> u64 {
    (((x as nat * 0x2545_F491_4F6C_DD1D) % 0x1_0000_0000_0000_0000) as u64) >> 11
}

/// Draw a number below two to the 53rd power.
pub fn xorshift_draw(state: &mut u64) -> (r: u64)
    ensures
        *final(state) == scrambled(*old(state)),
        r == draw(*final(state)),
        r < 0x20_0000_0000_0000,
{
    let mut x: u64 = *state;
    x = x ^ (x << 13);
    x = x ^ (x >> 7);
    x = x ^ (x << 17);
    *state = x;
    let y: u64 = x.wrapping_mul(0x2545_F491_4F6C_DD1D);
    assert((y >> 11) < 0x20_0000_0000_0000) by (bit_vector);
    y >> 11
}

/// What filling a batch leaves: the plane, the generator, how many packets
/// were taken off the queue, and the datagrams.
#[verifier::ext_equal]
pub struct Filled {
    pub plane: TxView,
    pub rng: u64,
    pub taken: nat,
    pub grams: Seq<Seq<u8>>,
}

/// Fill a batch that has room for `room` datagrams from `queue`. Every packet
/// uses up a sequence number; one whose draw is below `drop_below` is lost.
/// Where `drop_below` is zero nothing is drawn.
pub open spec fn fill(
    transfer_tag: u64,
    block: u32,
    drop_below: u64,
    plane: TxView,
    rng: u64,
    queue: Seq<Seq<u8>>,
    room: nat,
) -> Filled
    decreases queue.len(),
{
    if queue.len() == 0 || room == 0 {
        Filled { plane, rng, taken: 0, grams: Seq::empty() }
    } else {
        let drawn = if drop_below > 0 {
            scrambled(rng)
        } else {
            rng
        };
        let lost = drop_below > 0 && draw(drawn) < drop_below;
        let rest = fill(
            transfer_tag,
            block,
            drop_below,
            plane.next(),
            drawn,
            queue.drop_first(),
            if lost {
                room
            } else {
                (room - 1) as nat
            },
        );
        Filled {
            plane: rest.plane,
            rng: rest.rng,
            taken: rest.taken + 1,
            grams: if lost {
                rest.grams
            } else {
                seq![plane.wire(transfer_tag, block, queue[0])] + rest.grams
            },
        }
    }
}

/// Every datagram of the batch is one that a holder of the plane's key
/// accepts.
pub open spec fn fill_authentic(
    transfer_tag: u64,
    block: u32,
    drop_below: u64,
    plane: TxView,
    rng: u64,
    queue: Seq<Seq<u8>>,
    room: nat,
) -> bool
    decreases queue.len(),
{
    if queue.len() == 0 || room == 0 {
        true
    } else {
        let drawn = if drop_below > 0 {
            scrambled(rng)
        } else {
            rng
        };
        let lost = drop_below > 0 && draw(drawn) < drop_below;
        &&& !lost ==> plane.authentic(transfer_tag, block, queue[0])
        &&& fill_authentic(
            transfer_tag,
            block,
            drop_below,
            plane.next(),
            drawn,
            queue.drop_first(),
            if lost {
                room
            } else {
                (room - 1) as nat
            },
        )
    }
}

/// Datagrams one after the other.
pub open spec fn concat(grams: Seq<Seq<u8>>) -> Seq<u8>
    decreases grams.len(),
{
    if grams.len() == 0 {
        Seq::empty()
    } else {
        concat(grams.drop_last()) + grams.last()
    }
}

/// The packets that are left in a queue of buffers.
pub open spec fn views(queue: Seq<Vec<u8>>, from: int) -> Seq<Seq<u8>> {
    Seq::new((queue.len() - from) as nat, |i: int| queue[from + i]@)
}

/// Fill the empty buffer `batch` with at most `room` datagrams made of the
/// packets of `queue` from `from` on. Gives the number of packets taken and
/// the number of datagrams.
pub fn fill_batch(
    plane: &mut TxPlane,
    rng: &mut u64,
    drop_below: u64,
    transfer_tag: u64,
    block: u32,
    queue: &Vec<Vec<u8>>,
    from: usize,
    room: usize,
    batch: &mut Vec<u8>,
) -> (r: (usize, usize))
    requires
        from <= queue@.len(),
        old(batch)@.len() == 0,
        forall|i: int| 0 <= i < queue@.len() ==> (#[trigger] queue@[i])@.len() <= MAX_PAYLOAD,
    ensures
        ({
            let q = views(queue@, from as int);
            let f = fill(
                transfer_tag,
                block,
                drop_below,
                old(plane)@,
                *old(rng),
                q,
                room as nat,
            );
            &&& final(plane)@ == f.plane
            &&& *final(rng) == f.rng
            &&& r.0 == f.taken
            &&& r.1 == f.grams.len()
            &&& final(batch)@ == concat(f.grams)
            &&& fill_authentic(
                transfer_tag,
                block,
                drop_below,
                old(plane)@,
                *old(rng),
                q,
                room as nat,
            )
        }),
        r.0 <= queue@.len() - from,
        r.1 <= room,
        r.1 <= r.0,
        r.1 < room ==> r.0 == queue@.len() - from,
{
    let ghost p0 = plane@;
    let ghost g0 = *rng;
    let ghost q = views(queue@, from as int);
    let ghost total = fill(transfer_tag, block, drop_below, p0, g0, q, room as nat);
    let ghost mut done: Seq<Seq<u8>> = Seq::empty();
    let mut i: usize = from;
    let mut segs: usize = 0;
    assert(views(queue@, from as int) =~= q);
    assert(done + total.grams =~= total.grams);
    while i < queue.len() && segs < room
        invariant
            from <= i <= queue@.len(),
            segs <= room,
            segs <= i - from,
            segs == done.len(),
            batch@ == concat(done),
            forall|k: int| 0 <= k < queue@.len() ==> (#[trigger] queue@[k])@.len() <= MAX_PAYLOAD,
            total == fill(transfer_tag, block, drop_below, p0, g0, q, room as nat),
            ({
                let rest = fill(
                    transfer_tag,
                    block,
                    drop_below,
                    plane@,
                    *rng,
                    views(queue@, i as int),
                    (room - segs) as nat,
                );
                &&& total.plane == rest.plane
                &&& total.rng == rest.rng
                &&& total.taken == rest.taken + (i - from)
                &&& total.grams == done + rest.grams
            }),
            fill_authentic(
                transfer_tag,
                block,
                drop_below,
                plane@,
                *rng,
                views(queue@, i as int),
                (room - segs) as nat,
            ) ==> fill_authentic(transfer_tag, block, drop_below, p0, g0, q, room as nat),
        decreases queue@.len() - i,
    {
        let ghost tail = views(queue@, i as int);
        let ghost here = plane@;
        assert(tail[0] == queue@[i as int]@);
        assert(tail.drop_first() =~= views(queue@, i + 1));
        let lost: bool = if drop_below > 0 {
            xorshift_draw(rng) < drop_below
        } else {
            false
        };
        if lost {
            plane.burn_seq();
        } else {
            let ghost before = batch@;
            let ghost gram = here.wire(transfer_tag, block, tail[0]);
            let ghost rest = fill(
                transfer_tag,
                block,
                drop_below,
                here.next(),
                *rng,
                tail.drop_first(),
                (room - segs - 1) as nat,
            );
            assert(done + (seq![gram] + rest.grams) =~= done.push(gram) + rest.grams);
            let sent = plane.encode_into(transfer_tag, block, queue[i].as_slice(), batch);
            assert(sent is Ok);
            assert(batch@ =~= before + gram);
            proof {
                assert(done.push(gram).drop_last() =~= done);
                done = done.push(gram);
            }
            segs = segs + 1;
        }
        i = i + 1;
    }
    assert(done + Seq::<Seq<u8>>::empty() =~= done);
    (i - from, segs)
}

/// A plane after `n` more datagrams.
pub open spec fn advanced(plane: TxView, n: nat) -> TxView
    decreases n,
{
    if n == 0 {
        plane
    } else {
        advanced(plane.next(), (n - 1) as nat)
    }
}

/// Sending `a` and then `b` datagrams is sending `a + b`.
pub proof fn lemma_advanced_sum(plane: TxView, a: nat, b: nat)
    ensures
        advanced(advanced(plane, a), b) == advanced(plane, a + b),
    decreases a,
{
    if a > 0 {
        lemma_advanced_sum(plane.next(), (a - 1) as nat, b);
    }
}

/// A sealed plane that lasts counts up by one for each datagram.
pub proof fn lemma_advanced_seq(plane: TxView, n: nat)
    requires
        lasts(plane, n),
    ensures
        plane matches TxView::Sealed { key, seq } ==> advanced(plane, n) == (TxView::Sealed {
            key,
            seq: (seq + n) as u64,
        }),
    decreases n,
{
    if n > 0 {
        lemma_advanced_seq(plane.next(), (n - 1) as nat);
    }
}

/// Sending does not change how long datagrams are.
pub proof fn lemma_advanced_wire_len(plane: TxView, n: nat, payload_len: nat)
    ensures
        advanced(plane, n).wire_len(payload_len) == plane.wire_len(payload_len),
    decreases n,
{
    if n > 0 {
        lemma_advanced_wire_len(plane.next(), (n - 1) as nat, payload_len);
    }
}

/// A plane that does not run out of sequence numbers within `n` datagrams.
pub open spec fn lasts(plane: TxView, n: nat) -> bool {
    plane matches TxView::Sealed { key, seq } ==> seq + n <= u64::MAX
}

/// Every packet that is taken uses up one sequence number, lost or not, so no
/// number is used twice; a batch never holds more datagrams than it has room
/// for, and stops short of that only when the queue is empty.
pub proof fn law_fill_counts(
    transfer_tag: u64,
    block: u32,
    drop_below: u64,
    plane: TxView,
    rng: u64,
    queue: Seq<Seq<u8>>,
    room: nat,
)
    ensures
        ({
            let f = fill(transfer_tag, block, drop_below, plane, rng, queue, room);
            &&& f.taken <= queue.len()
            &&& f.grams.len() <= room
            &&& f.grams.len() <= f.taken
            &&& drop_below == 0 ==> f.grams.len() == f.taken && f.rng == rng
            &&& f.grams.len() < room ==> f.taken == queue.len()
            &&& f.plane == advanced(plane, f.taken)
            &&& lasts(plane, f.taken) ==> (plane matches TxView::Sealed { key, seq } ==> f.plane
                == TxView::Sealed { key, seq: (seq + f.taken) as u64 })
        }),
    decreases queue.len(),
{
    if queue.len() > 0 && room > 0 {
        let drawn = if drop_below > 0 {
            scrambled(rng)
        } else {
            rng
        };
        let lost = drop_below > 0 && draw(drawn) < drop_below;
        law_fill_counts(
            transfer_tag,
            block,
            drop_below,
            plane.next(),
            drawn,
            queue.drop_first(),
            if lost {
                room
            } else {
                (room - 1) as nat
            },
        );
    }
}

/// The payloads that are not lost on purpose.
pub open spec fn kept(
    drop_below: u64,
    rng: u64,
    queue: Seq<Seq<u8>>,
    room: nat,
) -> Seq<Seq<u8>>
    decreases queue.len(),
{
    if queue.len() == 0 || room == 0 {
        Seq::empty()
    } else {
        let drawn = if drop_below > 0 {
            scrambled(rng)
        } else {
            rng
        };
        if drop_below > 0 && draw(drawn) < drop_below {
            kept(drop_below, drawn, queue.drop_first(), room)
        } else {
            seq![queue[0]] + kept(drop_below, drawn, queue.drop_first(), (room - 1) as nat)
        }
    }
}

/// Where nothing is lost on purpose, a batch carries the front of the queue,
/// packet by packet, and leaves the rest.
pub proof fn law_without_drops_all_is_sent(
    transfer_tag: u64,
    block: u32,
    plane: TxView,
    rng: u64,
    queue: Seq<Seq<u8>>,
    room: nat,
)
    ensures
        ({
            let n = if room < queue.len() {
                room
            } else {
                queue.len()
            };
            let f = fill(transfer_tag, block, 0, plane, rng, queue, room);
            &&& f.taken == n
            &&& f.grams.len() == n
            &&& kept(0, rng, queue, room) == queue.take(n as int)
        }),
    decreases queue.len(),
{
    if queue.len() > 0 && room > 0 {
        let q = queue.drop_first();
        let r = (room - 1) as nat;
        law_without_drops_all_is_sent(transfer_tag, block, plane.next(), rng, q, r);
        let m = if r < q.len() {
            r
        } else {
            q.len()
        };
        assert(seq![queue[0]] + q.take(m as int) =~= queue.take(m as int + 1));
    } else {
        assert(kept(0, rng, queue, room) =~= queue.take(0));
    }
}

/// What a receiver opens of datagrams of which some arrive, in order.
pub open spec fn delivered(
    rx: RxView,
    transfer_tag: u64,
    grams: Seq<Seq<u8>>,
    arrives: Seq<bool>,
) -> Seq<(u32, Seq<u8>)>
    decreases grams.len(),
{
    if grams.len() == 0 {
        Seq::empty()
    } else if arrives[0] {
        let rest = delivered(
            rx.after(transfer_tag, grams[0]),
            transfer_tag,
            grams.drop_first(),
            arrives.drop_first(),
        );
        match rx.opened(transfer_tag, grams[0]) {
            Some(x) => seq![x] + rest,
            None => rest,
        }
    } else {
        delivered(rx, transfer_tag, grams.drop_first(), arrives.drop_first())
    }
}

/// The payloads of one block that arrive, in order.
pub open spec fn arrived(block: u32, payloads: Seq<Seq<u8>>, arrives: Seq<bool>) -> Seq<
    (u32, Seq<u8>),
>
    decreases payloads.len(),
{
    if payloads.len() == 0 {
        Seq::empty()
    } else {
        let rest = arrived(block, payloads.drop_first(), arrives.drop_first());
        if arrives[0] {
            seq![(block, payloads[0])] + rest
        } else {
            rest
        }
    }
}

/// Whatever part of a batch arrives, the receiver of the session opens
/// exactly the datagrams that do, each to the block and payload it was made
/// of.
pub proof fn law_what_arrives_is_opened(
    transfer_tag: u64,
    block: u32,
    drop_below: u64,
    plane: TxView,
    rng: u64,
    queue: Seq<Seq<u8>>,
    room: nat,
    rx: RxView,
    arrives: Seq<bool>,
)
    requires
        paired(plane, rx),
        lasts(plane, queue.len()),
        fill_authentic(transfer_tag, block, drop_below, plane, rng, queue, room),
        arrives.len() == fill(
            transfer_tag,
            block,
            drop_below,
            plane,
            rng,
            queue,
            room,
        ).grams.len(),
    ensures
        delivered(
            rx,
            transfer_tag,
            fill(transfer_tag, block, drop_below, plane, rng, queue, room).grams,
            arrives,
        ) == arrived(block, kept(drop_below, rng, queue, room), arrives),
    decreases queue.len(),
{
    if queue.len() > 0 && room > 0 {
        let drawn = if drop_below > 0 {
            scrambled(rng)
        } else {
            rng
        };
        let lost = drop_below > 0 && draw(drawn) < drop_below;
        let q = queue.drop_first();
        if lost {
            lemma_burned_stays_paired(plane, rx);
            law_what_arrives_is_opened(
                transfer_tag,
                block,
                drop_below,
                plane.next(),
                drawn,
                q,
                room,
                rx,
                arrives,
            );
        } else {
            let r = (room - 1) as nat;
            let gram = plane.wire(transfer_tag, block, queue[0]);
            let rest = fill(transfer_tag, block, drop_below, plane.next(), drawn, q, r).grams;
            let all = seq![gram] + rest;
            assert(all.drop_first() =~= rest);
            law_plane_round_trip(plane, rx, transfer_tag, block, queue[0]);
            let k = kept(drop_below, drawn, q, r);
            assert((seq![queue[0]] + k).drop_first() =~= k);
            let next = if arrives[0] {
                rx.after(transfer_tag, gram)
            } else {
                rx
            };
            law_what_arrives_is_opened(
                transfer_tag,
                block,
                drop_below,
                plane.next(),
                drawn,
                q,
                r,
                next,
                arrives.drop_first(),
            );
        }
    }
}

proof fn lemma_burned_stays_paired(tx: TxView, rx: RxView)
    requires
        paired(tx, rx),
        lasts(tx, 1),
    ensures
        paired(tx.next(), rx),
{
}

/// Datagrams of equal payloads fill a batch evenly: its length is that of one
/// datagram times their number, and cutting it every so many bytes gives the
/// datagrams back.
pub proof fn law_batch_is_even(
    transfer_tag: u64,
    block: u32,
    drop_below: u64,
    plane: TxView,
    rng: u64,
    queue: Seq<Seq<u8>>,
    room: nat,
    payload_len: nat,
)
    requires
        fill_authentic(transfer_tag, block, drop_below, plane, rng, queue, room),
        forall|i: int| 0 <= i < queue.len() ==> (#[trigger] queue[i]).len() == payload_len,
    ensures
        ({
            let grams = fill(transfer_tag, block, drop_below, plane, rng, queue, room).grams;
            &&& forall|i: int|
                0 <= i < grams.len() ==> (#[trigger] grams[i]).len() == plane.wire_len(payload_len)
            &&& concat(grams).len() == grams.len() * plane.wire_len(payload_len)
            &&& ceil_div(concat(grams).len(), plane.wire_len(payload_len)) == grams.len()
            &&& forall|i: int|
                0 <= i < grams.len() ==> piece(concat(grams), plane.wire_len(payload_len), i)
                    == #[trigger] grams[i]
        }),
{
    let grams = fill(transfer_tag, block, drop_below, plane, rng, queue, room).grams;
    let each = plane.wire_len(payload_len);
    lemma_gram_lengths(transfer_tag, block, drop_below, plane, rng, queue, room, payload_len);
    lemma_concat_len(grams, each);
    vstd::arithmetic::div_mod::lemma_div_multiples_vanish(grams.len() as int, each as int);
    vstd::arithmetic::div_mod::lemma_mod_multiples_basic(grams.len() as int, each as int);
    assert(each * grams.len() == grams.len() * each) by (nonlinear_arith);
    assert forall|i: int| 0 <= i < grams.len() implies piece(concat(grams), each, i)
        == #[trigger] grams[i] by {
        law_batch_is_cut_back(grams, each, i);
    }
}

/// Piece `i` of a batch that is cut every `each` bytes.
pub open spec fn piece(batch: Seq<u8>, each: nat, i: int) -> Seq<u8> {
    batch.subrange(cut(batch.len(), each, i).0, cut(batch.len(), each, i).1)
}

/// A batch of datagrams that all have the length `each` is cut back into them.
pub proof fn law_batch_is_cut_back(grams: Seq<Seq<u8>>, each: nat, i: int)
    requires
        forall|j: int| 0 <= j < grams.len() ==> (#[trigger] grams[j]).len() == each,
        0 <= i < grams.len(),
    ensures
        (i + 1) * each <= concat(grams).len(),
        concat(grams).subrange(i * each, (i + 1) * each) == grams[i],
        piece(concat(grams), each, i) == grams[i],
    decreases grams.len(),
{
    let front = grams.drop_last();
    assert(forall|j: int| 0 <= j < front.len() ==> #[trigger] front[j] == grams[j]);
    lemma_concat_len(front, each);
    lemma_concat_len(grams, each);
    assert((i + 1) * each == i * each + each) by (nonlinear_arith);
    assert(0 <= i * each && (i + 1) * each <= grams.len() * each) by (nonlinear_arith)
        requires
            0 <= i < grams.len(),
    ;
    if i < front.len() {
        law_batch_is_cut_back(front, each, i);
        assert(concat(grams).subrange(i * each, (i + 1) * each) =~= concat(front).subrange(
            i * each,
            (i + 1) * each,
        ));
    } else {
        assert(concat(grams).subrange(i * each, (i + 1) * each) =~= grams[i]);
    }
}

proof fn lemma_gram_lengths(
    transfer_tag: u64,
    block: u32,
    drop_below: u64,
    plane: TxView,
    rng: u64,
    queue: Seq<Seq<u8>>,
    room: nat,
    payload_len: nat,
)
    requires
        fill_authentic(transfer_tag, block, drop_below, plane, rng, queue, room),
        forall|i: int| 0 <= i < queue.len() ==> (#[trigger] queue[i]).len() == payload_len,
    ensures
        ({
            let grams = fill(transfer_tag, block, drop_below, plane, rng, queue, room).grams;
            forall|i: int|
                0 <= i < grams.len() ==> (#[trigger] grams[i]).len() == plane.wire_len(payload_len)
        }),
    decreases queue.len(),
{
    if queue.len() > 0 && room > 0 {
        let drawn = if drop_below > 0 {
            scrambled(rng)
        } else {
            rng
        };
        let lost = drop_below > 0 && draw(drawn) < drop_below;
        let r = if lost {
            room
        } else {
            (room - 1) as nat
        };
        let q = queue.drop_first();
        assert forall|i: int| 0 <= i < q.len() implies (#[trigger] q[i]).len() == payload_len by {
            assert(q[i] == queue[i + 1]);
        }
        lemma_gram_lengths(
            transfer_tag,
            block,
            drop_below,
            plane.next(),
            drawn,
            q,
            r,
            payload_len,
        );
        if !lost {
            law_wire_len_is_the_datagrams_length(plane, transfer_tag, block, queue[0]);
        }
    }
}

proof fn lemma_concat_len(grams: Seq<Seq<u8>>, each: nat)
    requires
        forall|i: int| 0 <= i < grams.len() ==> (#[trigger] grams[i]).len() == each,
    ensures
        concat(grams).len() == grams.len() * each,
    decreases grams.len(),
{
    if grams.len() > 0 {
        let front = grams.drop_last();
        assert(forall|i: int| 0 <= i < front.len() ==> #[trigger] front[i] == grams[i]);
        lemma_concat_len(front, each);
        assert(grams.len() * each == front.len() * each + each) by (nonlinear_arith)
            requires
                grams.len() == front.len() + 1,
        ;
    } else {
        assert(0 * each == 0) by (nonlinear_arith);
    }
}

/// Every datagram of a batch carries a packet of the queue under the number of
/// that packet's place, so that a packet which was lost leaves its number
/// unused; and the order is the queue's.
pub proof fn law_each_datagram_has_its_packets_number(
    transfer_tag: u64,
    block: u32,
    drop_below: u64,
    plane: TxView,
    rng: u64,
    queue: Seq<Seq<u8>>,
    room: nat,
)
    ensures
        ({
            let f = fill(transfer_tag, block, drop_below, plane, rng, queue, room);
            exists|places: Seq<int>|
                {
                    &&& #[trigger] places.len() == f.grams.len()
                    &&& forall|i: int|
                        0 <= i < places.len() ==> 0 <= #[trigger] places[i] < f.taken && f.grams[i]
                            == advanced(plane, places[i] as nat).wire(
                            transfer_tag,
                            block,
                            queue[places[i]],
                        )
                    &&& forall|i: int, j: int|
                        0 <= i < j < places.len() ==> #[trigger] places[i] < #[trigger] places[j]
                }
        }),
    decreases queue.len(),
{
    let f = fill(transfer_tag, block, drop_below, plane, rng, queue, room);
    if queue.len() > 0 && room > 0 {
        let drawn = if drop_below > 0 {
            scrambled(rng)
        } else {
            rng
        };
        let lost = drop_below > 0 && draw(drawn) < drop_below;
        let r = if lost {
            room
        } else {
            (room - 1) as nat
        };
        let q = queue.drop_first();
        law_each_datagram_has_its_packets_number(
            transfer_tag,
            block,
            drop_below,
            plane.next(),
            drawn,
            q,
            r,
        );
        let g = fill(transfer_tag, block, drop_below, plane.next(), drawn, q, r);
        law_fill_counts(transfer_tag, block, drop_below, plane.next(), drawn, q, r);
        let rest = choose|places: Seq<int>|
            {
                &&& #[trigger] places.len() == g.grams.len()
                &&& forall|i: int|
                    0 <= i < places.len() ==> 0 <= #[trigger] places[i] < g.taken && g.grams[i]
                        == advanced(plane.next(), places[i] as nat).wire(
                        transfer_tag,
                        block,
                        q[places[i]],
                    )
                &&& forall|i: int, j: int|
                    0 <= i < j < places.len() ==> #[trigger] places[i] < #[trigger] places[j]
            };
        let shifted = Seq::new(rest.len(), |i: int| rest[i] + 1);
        let places = if lost {
            shifted
        } else {
            seq![0int] + shifted
        };
        let first: int = if lost {
            0
        } else {
            1
        };
        assert(places.len() == f.grams.len());
        assert forall|i: int| 0 <= i < places.len() implies 0 <= #[trigger] places[i] < f.taken
            && f.grams[i] == advanced(plane, places[i] as nat).wire(
            transfer_tag,
            block,
            queue[places[i]],
        ) by {
            if i >= first {
                let k = rest[i - first];
                assert(f.grams[i] == g.grams[i - first]);
                assert(places[i] == k + 1);
                assert(q[k] == queue[k + 1]);
                assert(advanced(plane, (k + 1) as nat) == advanced(plane.next(), k as nat));
            } else {
                assert(advanced(plane, 0) == plane);
            }
        }
        assert forall|i: int, j: int| 0 <= i < j < places.len() implies #[trigger] places[i]
            < #[trigger] places[j] by {
            if i >= first {
                assert(rest[i - first] < rest[j - first]);
            } else {
                assert(rest[j - first] >= 0);
            }
        }
    } else {
        let none = Seq::<int>::empty();
        assert(none.len() == f.grams.len());
    }
}

/// Packets are lost on purpose by their own draws alone: the first of a queue is
/// lost exactly where its draw is below the mark, and the rest fares as it
/// would by itself, with the next number, the generator as the draw left it,
/// and room for one less where the first was not lost. Without a mark nothing
/// is drawn or lost, and with one of 2 to the 53rd power everything is.
pub proof fn law_packets_are_lost_by_their_draws(
    transfer_tag: u64,
    block: u32,
    drop_below: u64,
    plane: TxView,
    rng: u64,
    packet: Seq<u8>,
    rest: Seq<Seq<u8>>,
    room: nat,
)
    requires
        room > 0,
    ensures
        ({
            let f = fill(
                transfer_tag,
                block,
                drop_below,
                plane,
                rng,
                seq![packet] + rest,
                room,
            );
            let drawn = scrambled(rng);
            let spared = fill(transfer_tag, block, 0, plane.next(), rng, rest, (room - 1) as nat);
            let kept = fill(
                transfer_tag,
                block,
                drop_below,
                plane.next(),
                drawn,
                rest,
                (room - 1) as nat,
            );
            let lost = fill(transfer_tag, block, drop_below, plane.next(), drawn, rest, room);
            let gram = plane.wire(transfer_tag, block, packet);
            &&& drop_below == 0 ==> f.grams == seq![gram] + spared.grams && f.taken == spared.taken
                + 1 && f.rng == spared.rng && f.plane == spared.plane
            &&& drop_below > 0 && draw(drawn) >= drop_below ==> f.grams == seq![gram] + kept.grams
                && f.taken == kept.taken + 1 && f.rng == kept.rng && f.plane == kept.plane
            &&& drop_below > 0 && draw(drawn) < drop_below ==> f.grams == lost.grams && f.taken
                == lost.taken + 1 && f.rng == lost.rng && f.plane == lost.plane
            &&& draw(drawn) < 0x20_0000_0000_0000
        }),
{
    let all = seq![packet] + rest;
    assert(all.drop_first() =~= rest);
    let y = (((scrambled(rng) as nat * 0x2545_F491_4F6C_DD1D) % 0x1_0000_0000_0000_0000) as u64);
    assert((y >> 11) < 0x20_0000_0000_0000) by (bit_vector);
}

/// A draw steps the generator by xorshift, and is the top 53 bits of the state
/// times an odd constant.
pub proof fn law_draws_are_xorshift(x: u64)
    ensures
        scrambled(x) == ((x ^ (x << 13)) ^ ((x ^ (x << 13)) >> 7)) ^ (((x ^ (x << 13)) ^ ((x ^ (x
            << 13)) >> 7)) << 17),
        draw(x) == ((x * 0x2545_F491_4F6C_DD1D) % 0x1_0000_0000_0000_0000) / 2048,
{
    let y = ((x as nat * 0x2545_F491_4F6C_DD1D) % 0x1_0000_0000_0000_0000) as u64;
    assert(y >> 11 == y / 2048) by (bit_vector);
}

/// An empty queue or a batch without room takes nothing and makes nothing.
pub proof fn law_nothing_comes_of_nothing(
    transfer_tag: u64,
    block: u32,
    drop_below: u64,
    plane: TxView,
    rng: u64,
    queue: Seq<Seq<u8>>,
    room: nat,
)
    requires
        queue.len() == 0 || room == 0,
    ensures
        ({
            let f = fill(transfer_tag, block, drop_below, plane, rng, queue, room);
            f.grams.len() == 0 && f.taken == 0 && f.rng == rng && f.plane == plane
        }),
{
}

/// What is left of a queue is what follows in it, packet by packet.
pub proof fn law_the_rest_of_a_queue_follows(queue: Seq<Vec<u8>>, from: int)
    requires
        0 <= from <= queue.len(),
    ensures
        views(queue, from).len() == queue.len() - from,
        forall|i: int|
            0 <= i < queue.len() - from ==> #[trigger] views(queue, from)[i] == queue[from + i]@,
{
}

/// Datagrams one after the other: nothing for none, and one more goes to the
/// end, whole.
pub proof fn law_datagrams_are_appended_whole(grams: Seq<Seq<u8>>, gram: Seq<u8>)
    ensures
        concat(Seq::<Seq<u8>>::empty()).len() == 0,
        concat(grams.push(gram)) == concat(grams) + gram,
{
    assert(grams.push(gram).drop_last() =~= grams);
}

} // verus!
