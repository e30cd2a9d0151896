//! The RaptorQ code. A sender codes each object as one source block; a
//! receiver's decoder takes objects of several.
//!
//! The code is the `raptorq` crate's. Its encoder and decoder are declared
//! here with what this library relies on: which packets an object has, that a
//! decoder which was fed packets of an object gives that object back, and
//! that it does so once it has every source packet.

use std::collections::{HashSet, VecDeque};
use raptorq::{Decoder, Encoder, EncodingPacket, ObjectTransmissionInformation};
use vstd::arithmetic::div_mod::lemma_fundamental_div_mod;
use vstd::prelude::*;
use vstd::slice::slice_subrange;
use crate::blocks::{ceil_div, div_ceil, lemma_ceil_div, BlockInfo, Layout};
use crate::codec::be_bytes;

verus! {

/// Most source symbols that one source block can have.
pub const MAX_SOURCE_SYMBOLS: u64 = 56403;

/// Most source blocks that one object can have.
pub const MAX_SOURCE_BLOCKS: u64 = 255;

/// Encoding symbol ids have 24 bits.
pub const ESI_LIMIT: u64 = 0x100_0000;

/// Bytes of the payload id in front of a packet's symbol.
pub const PAYLOAD_ID_LEN: usize = 4;

/// Encoders kept alive at a time.
pub const ENCODER_CACHE: usize = 8;

/// The symbol size that the code really uses: from 64 bytes on, a multiple of
/// eight.
pub open spec fn coded_size(symbol_size: u16) -> nat {
    if symbol_size >= 64 {
        (symbol_size - symbol_size % 8) as nat
    } else {
        symbol_size as nat
    }
}

/// Source symbols of an object of `len` bytes.
pub open spec fn coded_symbols(len: nat, symbol_size: u16) -> nat {
    ceil_div(len, coded_size(symbol_size))
}

/// Source blocks of an object of `len` bytes.
pub open spec fn source_blocks(len: nat, symbol_size: u16) -> nat {
    ceil_div(coded_symbols(len, symbol_size), MAX_SOURCE_SYMBOLS as nat)
}

/// An object of `len` bytes has source blocks, and not too many to be
/// numbered.
pub open spec fn decodable(len: nat, symbol_size: u16) -> bool {
    &&& len > 0
    &&& symbol_size > 0
    &&& source_blocks(len, symbol_size) <= MAX_SOURCE_BLOCKS
}

/// An object of `len` bytes is coded as one source block.
pub open spec fn one_source_block(len: nat, symbol_size: u16) -> bool {
    &&& len > 0
    &&& symbol_size > 0
    &&& coded_symbols(len, symbol_size) <= MAX_SOURCE_SYMBOLS
}

/// The payload id of a packet: source block zero, then the encoding symbol
/// id, most significant byte first.
pub open spec fn payload_id(esi: int) -> Seq<u8> {
    seq![0u8] + be_bytes(esi as nat, 3)
}

/// A packet of the shape that an object of `len` bytes has: it names one of
/// the object's source blocks and holds a symbol of the right size.
pub open spec fn well_formed(len: nat, symbol_size: u16, packet: Seq<u8>) -> bool {
    &&& packet.len() == PAYLOAD_ID_LEN + coded_size(symbol_size)
    &&& packet[0] < source_blocks(len, symbol_size)
}

/// Source symbols of source block `s` of an object of `len` bytes: they are
/// dealt out evenly, the first blocks get one more.
pub open spec fn source_block_symbols(len: nat, symbol_size: u16, s: u8) -> nat {
    let k = coded_symbols(len, symbol_size);
    let z = source_blocks(len, symbol_size);
    k / z + if s < k % z {
        1nat
    } else {
        0
    }
}

/// The payload id of a packet as one number.
pub open spec fn id_of(packet: Seq<u8>) -> u32 {
    (packet[0] * 0x100_0000 + packet[1] * 0x1_0000 + packet[2] * 0x100 + packet[3]) as u32
}

/// The encoding symbol id of a packet.
pub open spec fn esi_of(packet: Seq<u8>) -> nat {
    (packet[1] * 0x1_0000 + packet[2] * 0x100 + packet[3]) as nat
}

/// Some packet has this payload id.
pub open spec fn has_id(packets: Seq<Seq<u8>>, id: u32) -> bool {
    exists|j: int| 0 <= j < packets.len() && id_of(#[trigger] packets[j]) == id
}

/// What a decoder keeps of the packets of one source block, the first of each
/// payload id.
#[verifier::ext_equal]
pub struct TallyView {
    /// How many symbols.
    pub received: nat,
    /// How many source symbols.
    pub sources: nat,
    /// Some symbol has another size than the code's.
    pub odd: bool,
    /// Some source symbol is shorter than that.
    pub short: bool,
}

impl TallyView {
    /// With one more symbol.
    pub open spec fn with(self, packet: Seq<u8>, symbol_size: u16, k: nat) -> TallyView {
        let size = packet.len() - PAYLOAD_ID_LEN;
        let source = esi_of(packet) < k;
        TallyView {
            received: self.received + 1,
            sources: self.sources + if source {
                1nat
            } else {
                0
            },
            odd: self.odd || size != coded_size(symbol_size),
            short: self.short || (source && size < coded_size(symbol_size)),
        }
    }

    /// The decoder has symbols that it cannot work with when it comes to
    /// them. With every source symbol it puts the object together, and cuts
    /// each to length; with as many symbols, but not those, it solves for the
    /// object, and then all must have the code's size.
    pub open spec fn jams(self, k: nat) -> bool {
        self.received >= k && if self.sources >= k {
            self.short
        } else {
            self.odd
        }
    }
}

/// What is kept of source block `s` after these packets.
pub open spec fn tally(len: nat, symbol_size: u16, packets: Seq<Seq<u8>>, s: u8) -> TallyView
    decreases packets.len(),
{
    if packets.len() == 0 {
        TallyView { received: 0, sources: 0, odd: false, short: false }
    } else {
        let before = tally(len, symbol_size, packets.drop_last(), s);
        if packets.last()[0] != s || has_id(packets.drop_last(), id_of(packets.last())) {
            before
        } else {
            before.with(packets.last(), symbol_size, source_block_symbols(len, symbol_size, s))
        }
    }
}

/// The decoder has given the object after these packets.
pub open spec fn given(len: u64, symbol_size: u16, packets: Seq<Seq<u8>>) -> bool {
    packets.len() > 0 && raptorq_decoded(len, symbol_size, packets) is Some
}

/// A decoder that was fed all of these packets but the last can take the last:
/// it names one of the object's source blocks, and either the object was given
/// before, or the decoder does not come to symbols that it cannot work with.
pub open spec fn takes(len: u64, symbol_size: u16, packets: Seq<Seq<u8>>) -> bool {
    let packet = packets.last();
    &&& decodable(len as nat, symbol_size)
    &&& packets.len() > 0
    &&& packet.len() >= PAYLOAD_ID_LEN
    &&& packet[0] < source_blocks(len as nat, symbol_size)
    &&& given(len, symbol_size, packets.drop_last()) || !tally(
        len as nat,
        symbol_size,
        packets,
        packet[0],
    ).jams(source_block_symbols(len as nat, symbol_size, packet[0]))
}

proof fn lemma_even_tally(len: nat, symbol_size: u16, packets: Seq<Seq<u8>>, s: u8)
    requires
        forall|i: int|
            0 <= i < packets.len() ==> well_formed(len, symbol_size, #[trigger] packets[i]),
    ensures
        !tally(len, symbol_size, packets, s).odd,
        !tally(len, symbol_size, packets, s).short,
    decreases packets.len(),
{
    if packets.len() > 0 {
        let front = packets.drop_last();
        assert forall|i: int| 0 <= i < front.len() implies well_formed(
            len,
            symbol_size,
            #[trigger] front[i],
        ) by {
            assert(front[i] == packets[i]);
        }
        lemma_even_tally(len, symbol_size, front, s);
        assert(well_formed(len, symbol_size, packets[packets.len() - 1]));
    }
}

/// A decoder that was fed well-formed packets takes another.
pub proof fn lemma_well_formed_is_taken(len: u64, symbol_size: u16, packets: Seq<Seq<u8>>)
    requires
        decodable(len as nat, symbol_size),
        packets.len() > 0,
        forall|i: int|
            0 <= i < packets.len() ==> well_formed(
                len as nat,
                symbol_size,
                #[trigger] packets[i],
            ),
    ensures
        takes(len, symbol_size, packets),
{
    assert(well_formed(len as nat, symbol_size, packets[packets.len() - 1]));
    lemma_even_tally(len as nat, symbol_size, packets, packets.last()[0]);
}

/// One source block is one by either count.
pub proof fn lemma_one_source_block(len: nat, symbol_size: u16)
    requires
        one_source_block(len, symbol_size),
    ensures
        source_blocks(len, symbol_size) == 1,
        decodable(len, symbol_size),
{
    lemma_ceil_div(len, coded_size(symbol_size));
}

/// The crate's encoder of one object.
#[verifier::external_type_specification]
#[verifier::external_body]
pub struct ExEncoder(Encoder);

/// The crate's decoder of one object.
#[verifier::external_type_specification]
#[verifier::external_body]
pub struct ExDecoder(Decoder);

/// What an encoder holds: the object.
pub uninterp spec fn encoder_object(e: Encoder) -> Seq<u8>;

/// The symbol size that an encoder was made with.
pub uninterp spec fn encoder_symbol_size(e: Encoder) -> u16;

/// The serialized packet that an object has under an encoding symbol id.
pub uninterp spec fn raptorq_packet(object: Seq<u8>, symbol_size: u16, esi: int) -> Seq<u8>;

/// What a decoder holds: the packets that it was fed, in order.
pub uninterp spec fn decoder_packets(d: Decoder) -> Seq<Seq<u8>>;

/// The object length and symbol size that a decoder was made with.
pub uninterp spec fn decoder_info(d: Decoder) -> (u64, u16);

/// What a decoder for these parameters gives back after these packets.
pub uninterp spec fn raptorq_decoded(
    len: u64,
    symbol_size: u16,
    packets: Seq<Seq<u8>>,
) -> Option<Seq<u8>>;

/// `packet` is one of the object's packets.
pub open spec fn packet_of(object: Seq<u8>, symbol_size: u16, packet: Seq<u8>) -> bool {
    exists|esi: int|
        0 <= esi < ESI_LIMIT && packet == #[trigger] raptorq_packet(object, symbol_size, esi)
}

/// Every one of `packets` is one of the object's packets.
pub open spec fn packets_of(object: Seq<u8>, symbol_size: u16, packets: Seq<Seq<u8>>) -> bool {
    forall|j: int|
        0 <= j < packets.len() ==> packet_of(object, symbol_size, #[trigger] packets[j])
}

/// Some packet carries this payload id.
pub open spec fn carried(packets: Seq<Seq<u8>>, esi: int) -> bool {
    exists|j: int|
        0 <= j < packets.len() && (#[trigger] packets[j]).subrange(0, 4) == payload_id(esi)
}

/// The packets carry the payload ids of all source symbols.
pub open spec fn all_source_carried(
    len: u64,
    symbol_size: u16,
    packets: Seq<Seq<u8>>,
) -> bool {
    forall|esi: int|
        0 <= esi < coded_symbols(len as nat, symbol_size) ==> #[trigger] carried(packets, esi)
}

/// The bytes of an object, if there is one.
pub open spec fn bytes_of(r: Option<Vec<u8>>) -> Option<Seq<u8>> {
    match r {
        None => None,
        Some(v) => Some(v@),
    }
}

/// What holds of the object that a decoder gives back after these packets: it
/// has the length asked for; of an object of one source block, it is the
/// object whose packets these are, if they all are of one; and there is one
/// if all source symbols are there.
pub open spec fn decoding(
    len: u64,
    symbol_size: u16,
    packets: Seq<Seq<u8>>,
    decoded: Option<Seq<u8>>,
) -> bool {
    &&& decoded matches Some(v) ==> v.len() == len
    &&& one_source_block(len as nat, symbol_size) && decoded is Some ==> forall|object: Seq<u8>|
        object.len() == len && #[trigger] packets_of(object, symbol_size, packets) ==> decoded
            == Some(object)
    &&& one_source_block(len as nat, symbol_size) && all_source_carried(len, symbol_size, packets)
        ==> decoded is Some
}

/// Calls `Encoder::with_defaults`.
///
/// Claimed of it: the encoder is one of this object and symbol size. Left out
/// are the inputs on which the crate divides by zero (nothing to encode, no
/// symbol size) and those that it splits into several source blocks.
#[verifier::external_body]
pub(crate) fn new_encoder(object: &[u8], symbol_size: u16) -> (e: Encoder)
    requires
        one_source_block(object@.len(), symbol_size),
    ensures
        encoder_object(e) == object@,
        encoder_symbol_size(e) == symbol_size,
{
    Encoder::with_defaults(object, symbol_size)
}

/// Calls `SourceBlockEncoder::source_packets` on the encoder's source block
/// and `EncodingPacket::serialize` on each packet.
///
/// Claimed of it: it gives one packet per source symbol, in the order of the
/// encoding symbol ids from zero. A serialized packet depends on the object,
/// the symbol size and the id alone; it is the payload id and then a symbol.
#[verifier::external_body]
pub(crate) fn source_payloads(e: &Encoder) -> (r: Vec<Vec<u8>>)
    requires
        one_source_block(encoder_object(*e).len(), encoder_symbol_size(*e)),
    ensures
        r@.len() == coded_symbols(encoder_object(*e).len(), encoder_symbol_size(*e)),
        forall|i: int|
            0 <= i < r@.len() ==> {
                &&& (#[trigger] r@[i])@ == raptorq_packet(
                    encoder_object(*e),
                    encoder_symbol_size(*e),
                    i,
                )
                &&& r@[i]@.len() == PAYLOAD_ID_LEN + coded_size(encoder_symbol_size(*e))
                &&& r@[i]@.subrange(0, 4) == payload_id(i)
            },
{
    e.get_block_encoders()[0].source_packets().iter().map(|p| p.serialize()).collect()
}

/// Calls `SourceBlockEncoder::repair_packets` on the encoder's source block
/// and `EncodingPacket::serialize` on each packet.
///
/// Claimed of it: it gives `count` packets, whose encoding symbol ids go on
/// from the source symbols' by `start`. A serialized packet depends on the
/// object, the symbol size and the id alone; it is the payload id and then a
/// symbol. Left out are ids that do not fit in 24 bits, on which it panics.
#[verifier::external_body]
pub(crate) fn repair_payloads(e: &Encoder, start: u32, count: u32) -> (r: Vec<Vec<u8>>)
    requires
        one_source_block(encoder_object(*e).len(), encoder_symbol_size(*e)),
        coded_symbols(encoder_object(*e).len(), encoder_symbol_size(*e)) + start + count
            <= ESI_LIMIT,
    ensures
        r@.len() == count,
        forall|i: int|
            0 <= i < r@.len() ==> {
                let esi = coded_symbols(encoder_object(*e).len(), encoder_symbol_size(*e)) + start
                    + i;
                &&& (#[trigger] r@[i])@ == raptorq_packet(
                    encoder_object(*e),
                    encoder_symbol_size(*e),
                    esi,
                )
                &&& r@[i]@.len() == PAYLOAD_ID_LEN + coded_size(encoder_symbol_size(*e))
                &&& r@[i]@.subrange(0, 4) == payload_id(esi)
            },
{
    e.get_block_encoders()[0].repair_packets(start, count).iter().map(|p| p.serialize()).collect()
}

/// Calls `Decoder::new` with the parameters that
/// `ObjectTransmissionInformation::with_defaults` gives.
///
/// Claimed of it: the decoder is one for an object of this length and symbol
/// size, and holds no packet yet. Left out are the inputs on which the crate
/// divides by zero and those whose source blocks do not fit the byte that
/// counts them.
#[verifier::external_body]
pub(crate) fn new_decoder(info: BlockInfo) -> (d: Decoder)
    requires
        decodable(info.transfer_length as nat, info.symbol_size),
    ensures
        decoder_info(d) == (info.transfer_length, info.symbol_size),
        decoder_packets(d) == Seq::<Seq<u8>>::empty(),
{
    Decoder::new(ObjectTransmissionInformation::with_defaults(info.transfer_length, info.symbol_size))
}

/// Calls `EncodingPacket::deserialize` and `Decoder::decode`.
///
/// Claimed of it: what it returns depends on the decoder's parameters and on
/// the packets that it was fed, this one included. An object that it returns
/// has the length that it was made for. Of an object of one source block: if
/// all packets were packets of one object, that object is what it returns, if
/// it returns any, for the packets then satisfy the code's linear equations
/// with that object, and the decoder returns only where those have one
/// solution; and it does return one as soon as it was fed all source symbols.
/// Of an object of several source blocks no more than the length is claimed.
///
/// It keeps the first symbol of each payload id, whatever its size, and does
/// nothing with them before it has as many as the source block has source
/// symbols. Left out are the packets on which it panics: one that names no
/// source block of the object, and one upon which it puts the object together
/// with a source symbol that is too short, or solves for it with any symbol of
/// another size than the code's. Once it has given the object it keeps nothing
/// more.
#[verifier::external_body]
pub(crate) fn decode(d: &mut Decoder, packet: &[u8]) -> (r: Option<Vec<u8>>)
    requires
        takes(
            decoder_info(*old(d)).0,
            decoder_info(*old(d)).1,
            decoder_packets(*old(d)).push(packet@),
        ),
    ensures
        decoder_info(*final(d)) == decoder_info(*old(d)),
        decoder_packets(*final(d)) == decoder_packets(*old(d)).push(packet@),
        bytes_of(r) == raptorq_decoded(
            decoder_info(*final(d)).0,
            decoder_info(*final(d)).1,
            decoder_packets(*final(d)),
        ),
        decoding(
            decoder_info(*final(d)).0,
            decoder_info(*final(d)).1,
            decoder_packets(*final(d)),
            bytes_of(r),
        ),
{
    d.decode(EncodingPacket::deserialize(packet))
}

/// The symbol size that the code really uses.
pub fn coded_symbol_size(symbol_size: u16) -> (t: u16)
    ensures
        t == coded_size(symbol_size),
        symbol_size > 0 ==> t > 0,
{
    if symbol_size >= 64 {
        symbol_size - symbol_size % 8
    } else {
        symbol_size
    }
}

/// What is kept of the packets of one source block. The counts stop at the
/// block's source symbols: beyond them they make no difference.
#[derive(Clone, Copy)]
struct Tally {
    received: u64,
    sources: u64,
    odd: bool,
    short: bool,
}

impl Tally {
    /// This stands for `v`, of a source block with `k` source symbols.
    spec fn stands_for(self, v: TallyView, k: nat) -> bool {
        &&& self.received <= k
        &&& self.received < k ==> self.received == v.received
        &&& self.received == k ==> v.received >= k
        &&& self.sources <= k
        &&& self.sources < k ==> self.sources == v.sources
        &&& self.sources == k ==> v.sources >= k
        &&& self.odd == v.odd
        &&& self.short == v.short
    }

    /// With one more symbol.
    fn with(&self, Ghost(v): Ghost<TallyView>, packet: &[u8], symbol_size: u16, k: u64) -> (t: Self)
        requires
            self.stands_for(v, k as nat),
            packet@.len() >= PAYLOAD_ID_LEN,
        ensures
            t.stands_for(v.with(packet@, symbol_size, k as nat), k as nat),
    {
        let size: usize = packet.len() - PAYLOAD_ID_LEN;
        let t: usize = coded_symbol_size(symbol_size) as usize;
        let esi: u64 = packet[1] as u64 * 0x1_0000 + packet[2] as u64 * 0x100 + packet[3] as u64;
        let source: bool = esi < k;
        Tally {
            received: if self.received < k {
                self.received + 1
            } else {
                k
            },
            sources: if source && self.sources < k {
                self.sources + 1
            } else {
                self.sources
            },
            odd: self.odd || size != t,
            short: self.short || (source && size < t),
        }
    }

    /// Whether the decoder has symbols that it cannot work with when it comes
    /// to them.
    fn jams(&self, Ghost(v): Ghost<TallyView>, k: u64) -> (r: bool)
        requires
            self.stands_for(v, k as nat),
        ensures
            r == v.jams(k as nat),
    {
        self.received >= k && if self.sources >= k {
            self.short
        } else {
            self.odd
        }
    }
}

/// The payload id of a packet as one number.
fn packet_id(packet: &[u8]) -> (id: u32)
    requires
        packet@.len() >= PAYLOAD_ID_LEN,
    ensures
        id == id_of(packet@),
{
    packet[0] as u32 * 0x100_0000 + packet[1] as u32 * 0x1_0000 + packet[2] as u32 * 0x100
        + packet[3] as u32
}

/// The decoder of one block, with an account of what it keeps, by which a
/// packet that it cannot take is told beforehand.
pub struct BlockDecoder {
    decoder: Decoder,
    info: BlockInfo,
    symbols: u64,
    blocks: u64,
    seen: HashSet<u32>,
    tallies: Vec<Tally>,
    given: bool,
}

impl BlockDecoder {
    /// The packets that it was fed, in order.
    pub closed spec fn packets(self) -> Seq<Seq<u8>> {
        decoder_packets(self.decoder)
    }

    /// The length of its object and the symbol size.
    pub closed spec fn info(self) -> (u64, u16) {
        (self.info.transfer_length, self.info.symbol_size)
    }

    /// The account is that of the packets.
    pub closed spec fn wf(self) -> bool {
        let len = self.info.transfer_length as nat;
        let size = self.info.symbol_size;
        let packets = self.packets();
        &&& decoder_info(self.decoder) == self.info()
        &&& decodable(len, size)
        &&& self.symbols == coded_symbols(len, size)
        &&& self.blocks == source_blocks(len, size)
        &&& forall|id: u32| #[trigger] self.seen@.contains(id) <==> has_id(packets, id)
        &&& self.tallies@.len() == self.blocks
        &&& forall|s: u8|
            s < self.blocks ==> (#[trigger] self.tallies@[s as int]).stands_for(
                tally(len, size, packets, s),
                source_block_symbols(len, size, s),
            )
        &&& self.given == given(self.info.transfer_length, size, packets)
    }

    /// A decoder that was fed nothing, if the object has source blocks that
    /// can be numbered.
    pub fn new(info: BlockInfo) -> (r: Option<Self>)
        requires
            info.transfer_length > 0,
            info.symbol_size > 0,
        ensures
            r is Some <==> decodable(info.transfer_length as nat, info.symbol_size),
            r matches Some(d) ==> {
                &&& d.wf()
                &&& d.info() == (info.transfer_length, info.symbol_size)
                &&& d.packets() == Seq::<Seq<u8>>::empty()
            },
    {
        broadcast use vstd::std_specs::hash::group_hash_axioms;

        let t: u16 = coded_symbol_size(info.symbol_size);
        let symbols: u64 = div_ceil(info.transfer_length, t as u64);
        let blocks: u64 = div_ceil(symbols, MAX_SOURCE_SYMBOLS);
        if blocks > MAX_SOURCE_BLOCKS {
            return None;
        }
        let mut tallies: Vec<Tally> = Vec::new();
        let none = Tally { received: 0, sources: 0, odd: false, short: false };
        let mut i: u64 = 0;
        while i < blocks
            invariant
                i <= blocks,
                tallies@.len() == i,
                none == (Tally { received: 0, sources: 0, odd: false, short: false }),
                forall|j: int| 0 <= j < i ==> tallies@[j] == none,
            decreases blocks - i,
        {
            tallies.push(none);
            i = i + 1;
        }
        let decoder = new_decoder(info);
        let d = BlockDecoder {
            decoder,
            info,
            symbols,
            blocks,
            seen: HashSet::new(),
            tallies,
            given: false,
        };
        proof {
            let len = info.transfer_length as nat;
            lemma_ceil_div(len, t as nat);
            lemma_ceil_div(symbols as nat, MAX_SOURCE_SYMBOLS as nat);
            assert forall|s: u8| s < blocks implies (#[trigger] d.tallies@[s as int]).stands_for(
                tally(len, info.symbol_size, d.packets(), s),
                source_block_symbols(len, info.symbol_size, s),
            ) by {
                lemma_block_has_symbols(len, info.symbol_size, s);
            }
        }
        Some(d)
    }

    /// Source symbols of source block `s`.
    fn symbols_of(&self, s: u8) -> (k: u64)
        requires
            self.wf(),
        ensures
            k == source_block_symbols(self.info().0 as nat, self.info().1, s),
            s < self.blocks ==> k > 0,
    {
        proof {
            let t = coded_size(self.info.symbol_size);
            lemma_ceil_div(self.info.transfer_length as nat, t);
            lemma_ceil_div(self.symbols as nat, MAX_SOURCE_SYMBOLS as nat);
            lemma_block_has_symbols(self.info.transfer_length as nat, self.info.symbol_size, s);
            lemma_fundamental_div_mod(self.symbols as int, self.blocks as int);
            assert(self.symbols / self.blocks + self.symbols % self.blocks <= self.symbols)
                by (nonlinear_arith)
                requires
                    self.symbols == self.blocks * (self.symbols / self.blocks) + self.symbols
                        % self.blocks,
                    self.blocks >= 1,
            ;
        }
        let more: u64 = if (s as u64) < self.symbols % self.blocks {
            1
        } else {
            0
        };
        self.symbols / self.blocks + more
    }

    /// What is kept of its source block once the packet is fed.
    fn after(&self, packet: &[u8]) -> (t: Tally)
        requires
            self.wf(),
            packet@.len() >= PAYLOAD_ID_LEN,
            packet@[0] < self.blocks,
        ensures
            t.stands_for(
                tally(
                    self.info().0 as nat,
                    self.info().1,
                    self.packets().push(packet@),
                    packet@[0],
                ),
                source_block_symbols(self.info().0 as nat, self.info().1, packet@[0]),
            ),
    {
        broadcast use vstd::std_specs::hash::group_hash_axioms;

        let s: u8 = packet[0];
        let id: u32 = packet_id(packet);
        let k: u64 = self.symbols_of(s);
        let before: Tally = self.tallies[s as usize];
        assert(self.packets().push(packet@).drop_last() =~= self.packets());
        if self.seen.contains(&id) {
            return before;
        }
        let ghost v = tally(self.info().0 as nat, self.info().1, self.packets(), s);
        before.with(Ghost(v), packet, self.info.symbol_size, k)
    }

    /// Whether the decoder can take the packet.
    pub fn takes(&self, packet: &[u8]) -> (ok: bool)
        requires
            self.wf(),
            packet@.len() >= PAYLOAD_ID_LEN,
        ensures
            ok == takes(self.info().0, self.info().1, self.packets().push(packet@)),
    {
        assert(self.packets().push(packet@).drop_last() =~= self.packets());
        if packet[0] as u64 >= self.blocks {
            return false;
        }
        if self.given {
            return true;
        }
        let t: Tally = self.after(packet);
        let ghost v = tally(
            self.info().0 as nat,
            self.info().1,
            self.packets().push(packet@),
            packet@[0],
        );
        let k: u64 = self.symbols_of(packet[0]);
        !t.jams(Ghost(v), k)
    }

    /// Feed a packet. Gives the object once it is decoded.
    pub fn feed(&mut self, packet: &[u8]) -> (r: Option<Vec<u8>>)
        requires
            old(self).wf(),
            takes(old(self).info().0, old(self).info().1, old(self).packets().push(packet@)),
        ensures
            final(self).wf(),
            final(self).info() == old(self).info(),
            final(self).packets() == old(self).packets().push(packet@),
            bytes_of(r) == raptorq_decoded(
                old(self).info().0,
                old(self).info().1,
                final(self).packets(),
            ),
            decoding(old(self).info().0, old(self).info().1, final(self).packets(), bytes_of(r)),
    {
        broadcast use vstd::std_specs::hash::group_hash_axioms;

        let ghost before = self.packets();
        let ghost now = before.push(packet@);
        let ghost len = self.info.transfer_length as nat;
        let ghost size = self.info.symbol_size;
        assert(now.drop_last() =~= before);
        let s: u8 = packet[0];
        let id: u32 = packet_id(packet);
        let t: Tally = self.after(packet);
        let r = decode(&mut self.decoder, packet);
        self.tallies.set(s as usize, t);
        self.seen.insert(id);
        self.given = r.is_some();
        proof {
            assert forall|i: u32| #[trigger] self.seen@.contains(i) <==> has_id(now, i) by {
                if has_id(before, i) {
                    let j = choose|j: int|
                        0 <= j < before.len() && id_of(#[trigger] before[j]) == i;
                    assert(id_of(now[j]) == i);
                }
                if i == id {
                    assert(id_of(now[before.len() as int]) == i);
                }
                if has_id(now, i) && i != id {
                    let j = choose|j: int| 0 <= j < now.len() && id_of(#[trigger] now[j]) == i;
                    assert(before[j] == now[j]);
                }
            }
            assert forall|c: u8| c < self.blocks implies (
            #[trigger] self.tallies@[c as int]).stands_for(
                tally(len, size, now, c),
                source_block_symbols(len, size, c),
            ) by {}
        }
        r
    }
}

proof fn lemma_block_has_symbols(len: nat, symbol_size: u16, s: u8)
    requires
        decodable(len, symbol_size),
    ensures
        source_blocks(len, symbol_size) > 0,
        source_block_symbols(len, symbol_size, s) > 0,
{
    let k = coded_symbols(len, symbol_size);
    lemma_ceil_div(len, coded_size(symbol_size));
    lemma_ceil_div(k, MAX_SOURCE_SYMBOLS as nat);
    let z = source_blocks(len, symbol_size);
    assert(z <= k);
    lemma_fundamental_div_mod(k as int, z as int);
    assert(k / z >= 1) by (nonlinear_arith)
        requires
            k == z * (k / z) + k % z,
            k % z < z,
            z <= k,
            z > 0,
    ;
}

impl Layout {
    /// Every block of the layout is coded as one source block.
    pub open spec fn codable(self) -> bool {
        forall|b: int|
            0 <= b < self.num_blocks ==> one_source_block(
                (#[trigger] self.len(b)) as nat,
                self.symbol_size,
            )
    }

    /// Whether every block of the layout is coded as one source block. The
    /// first block is never shorter than another, so it decides.
    pub fn is_codable(&self) -> (ok: bool)
        requires
            self.wf(),
        ensures
            ok == self.codable(),
    {
        proof {
            lemma_ceil_div(self.file_size as nat, self.block_size as nat);
        }
        let t: u16 = coded_symbol_size(self.symbol_size);
        let first: u64 = self.block_len(0);
        let ok: bool = div_ceil(first, t as u64) <= MAX_SOURCE_SYMBOLS;
        proof {
            if ok {
                assert forall|b: int| 0 <= b < self.num_blocks implies one_source_block(
                    (#[trigger] self.len(b)) as nat,
                    self.symbol_size,
                ) by {
                    self.lemma_first_is_longest(b);
                    lemma_ceil_div_monotone(self.len(b) as nat, first as nat, t as nat);
                }
            } else {
                assert(!one_source_block(self.len(0) as nat, self.symbol_size));
            }
        }
        ok
    }

    /// A decoder can be made for every block of the layout.
    pub open spec fn decodable(self) -> bool {
        forall|b: int|
            0 <= b < self.num_blocks ==> decodable(
                (#[trigger] self.len(b)) as nat,
                self.symbol_size,
            )
    }

    /// Whether a decoder can be made for every block of the layout. The first
    /// block is never shorter than another, so it decides.
    pub fn is_decodable(&self) -> (ok: bool)
        requires
            self.wf(),
        ensures
            ok == self.decodable(),
    {
        proof {
            lemma_ceil_div(self.file_size as nat, self.block_size as nat);
        }
        let t: u16 = coded_symbol_size(self.symbol_size);
        let first: u64 = self.block_len(0);
        let z: u64 = div_ceil(div_ceil(first, t as u64), MAX_SOURCE_SYMBOLS);
        let ok: bool = z <= MAX_SOURCE_BLOCKS;
        proof {
            if ok {
                assert forall|b: int| 0 <= b < self.num_blocks implies decodable(
                    (#[trigger] self.len(b)) as nat,
                    self.symbol_size,
                ) by {
                    self.lemma_first_is_longest(b);
                    lemma_ceil_div_monotone(self.len(b) as nat, first as nat, t as nat);
                    lemma_ceil_div_monotone(
                        ceil_div(self.len(b) as nat, t as nat),
                        ceil_div(first as nat, t as nat),
                        MAX_SOURCE_SYMBOLS as nat,
                    );
                }
            } else {
                assert(!decodable(self.len(0) as nat, self.symbol_size));
            }
        }
        ok
    }

    proof fn lemma_first_is_longest(self, b: int)
        requires
            self.wf(),
            0 <= b < self.num_blocks,
        ensures
            0 < self.len(b) <= self.len(0),
    {
        self.lemma_bounds(b);
        self.lemma_bounds(0);
        assert(0 * self.block_size == 0) by (nonlinear_arith);
        assert(0 <= b * self.block_size) by (nonlinear_arith)
            requires
                b >= 0,
                self.block_size >= 0,
        ;
    }
}

proof fn lemma_ceil_div_monotone(a: nat, c: nat, b: nat)
    requires
        a <= c,
        b > 0,
    ensures
        ceil_div(a, b) <= ceil_div(c, b),
{
    lemma_ceil_div(a, b);
    lemma_ceil_div(c, b);
    let x = ceil_div(a, b);
    let y = ceil_div(c, b);
    assert(x <= y) by (nonlinear_arith)
        requires
            b * x < a + b,
            c <= b * y,
            a <= c,
            b > 0,
    ;
}

/// An encoder for this block of this file.
pub open spec fn encodes(layout: Layout, data: Seq<u8>, b: u32, e: Encoder) -> bool {
    &&& b < layout.num_blocks
    &&& encoder_object(e) == layout.block(data, b as int)
    &&& encoder_symbol_size(e) == layout.symbol_size
}

/// A small cache of live encoders, most recently used first: building one
/// costs a linear solve, so those still under repair are kept.
pub struct EncoderCache {
    entries: VecDeque<(u32, Encoder)>,
}

/// The blocks `ids` after block `b` was asked for: `b` moves to the front, and
/// what no longer has room is forgotten.
pub open spec fn touched(ids: Seq<u32>, b: u32) -> Seq<u32> {
    let moved = if ids.contains(b) {
        seq![b] + ids.remove(ids.index_of(b))
    } else {
        seq![b] + ids
    };
    if moved.len() > ENCODER_CACHE {
        moved.subrange(0, ENCODER_CACHE as int)
    } else {
        moved
    }
}

impl EncoderCache {
    /// The blocks whose encoders are kept, most recently used first.
    pub closed spec fn ids(self) -> Seq<u32> {
        self.entries@.map_values(|e: (u32, Encoder)| e.0)
    }

    /// The cache holds encoders of this file's blocks, no block twice, and
    /// not more of them than it may.
    pub closed spec fn wf(self, layout: Layout, data: Seq<u8>) -> bool {
        &&& self.ids().no_duplicates()
        &&& self.ids().len() <= ENCODER_CACHE
        &&& forall|i: int|
            0 <= i < self.entries@.len() ==> encodes(
                layout,
                data,
                (#[trigger] self.entries@[i]).0,
                self.entries@[i].1,
            )
    }

    /// A cache that holds nothing.
    pub fn new() -> (c: Self)
        ensures
            c.ids() == Seq::<u32>::empty(),
            forall|layout: Layout, data: Seq<u8>| #[trigger] c.wf(layout, data),
    {
        let c = EncoderCache { entries: VecDeque::new() };
        assert(c.ids() =~= Seq::<u32>::empty());
        c
    }

    /// Fetch or build the encoder for block `b`.
    pub fn get_encoder(&mut self, b: u32, layout: &Layout, data: &[u8]) -> (e: &Encoder)
        requires
            layout.wf(),
            layout.codable(),
            b < layout.num_blocks,
            data@.len() == layout.file_size,
            old(self).wf(*layout, data@),
        ensures
            encodes(*layout, data@, b, *e),
            final(self).wf(*layout, data@),
            final(self).ids() == touched(old(self).ids(), b),
    {
        assert(data@.len() == data.len());
        let ghost ids = self.ids();
        let n: usize = self.entries.len();
        let mut pos: usize = 0;
        while pos < n && self.entries[pos].0 != b
            invariant
                n == self.entries@.len(),
                pos <= n,
                forall|i: int| 0 <= i < pos ==> (#[trigger] self.entries@[i]).0 != b,
            decreases n - pos,
        {
            pos = pos + 1;
        }
        if pos < n {
            proof {
                assert(ids[pos as int] == b);
                assert(ids.contains(b));
                assert(ids.index_of(b) == pos);
            }
            if let Some(entry) = self.entries.remove(pos) {
                self.entries.push_front(entry);
            }
            proof {
                assert(self.ids() =~= seq![b] + ids.remove(pos as int));
            }
        } else {
            proof {
                assert forall|i: int| 0 <= i < ids.len() implies ids[i] != b by {
                    assert(self.entries@[i].0 != b);
                }
                assert(!ids.contains(b));
                layout.lemma_bounds(b as int);
            }
            let r = layout.range(b);
            let block = slice_subrange(data, r.start as usize, r.end as usize);
            assert(one_source_block(layout.len(b as int) as nat, layout.symbol_size));
            let enc = new_encoder(block, layout.symbol_size);
            self.entries.push_front((b, enc));
            self.entries.truncate(ENCODER_CACHE);
            assert(self.ids() =~= touched(ids, b));
        }
        &self.entries[0].1
    }
}

/// Feeding a decoder packets of one object, all source packets among them, in
/// whatever order and with whatever repeats, gives the object back.
pub proof fn law_source_packets_are_enough(
    object: Seq<u8>,
    len: u64,
    symbol_size: u16,
    packets: Seq<Seq<u8>>,
    decoded: Option<Seq<u8>>,
)
    requires
        object.len() == len,
        one_source_block(len as nat, symbol_size),
        packets_of(object, symbol_size, packets),
        all_source_carried(len, symbol_size, packets),
        decoding(len, symbol_size, packets, decoded),
    ensures
        decoded == Some(object),
{
}

/// Source symbols are as many as it takes to cover the object, source blocks as
/// many as it takes at 56403 symbols each, and an object is one source block
/// exactly where it is not empty and needs no more symbols than that.
pub proof fn law_symbols_and_source_blocks_cover_the_object(len: nat, symbol_size: u16)
    requires
        len > 0,
        symbol_size > 0,
    ensures
        ({
            let t = coded_size(symbol_size);
            let k = coded_symbols(len, symbol_size);
            let z = source_blocks(len, symbol_size);
            &&& (k - 1) * t < len <= k * t
            &&& (z - 1) * 56403 < k <= z * 56403
            &&& one_source_block(len, symbol_size) <==> len <= 56403 * t
            &&& decodable(len, symbol_size) <==> len <= 255 * 56403 * t
        }),
{
    let t = coded_size(symbol_size);
    let k = coded_symbols(len, symbol_size);
    let z = source_blocks(len, symbol_size);
    lemma_ceil_div(len, t);
    lemma_ceil_div(k, MAX_SOURCE_SYMBOLS as nat);
    assert((k - 1) * t == t * k - t && k * t == t * k) by (nonlinear_arith);
    assert(k <= 56403 <==> len <= 56403 * t) by (nonlinear_arith)
        requires
            t > 0,
            len <= t * k,
            t * k < len + t,
    ;
    assert(k <= 255 * 56403 <==> len <= 255 * 56403 * t) by (nonlinear_arith)
        requires
            t > 0,
            len <= t * k,
            t * k < len + t,
    ;
}

/// The source symbols are dealt out to the source blocks evenly: each has at
/// least its share rounded down, exactly so many have one more as are left
/// over, and they come first. One source block has them all.
pub proof fn law_symbols_are_dealt_out_evenly(len: nat, symbol_size: u16, s: u8)
    requires
        decodable(len, symbol_size),
        s < source_blocks(len, symbol_size),
    ensures
        ({
            let k = coded_symbols(len, symbol_size);
            let z = source_blocks(len, symbol_size);
            let share = source_block_symbols(len, symbol_size, 254);
            let here = source_block_symbols(len, symbol_size, s);
            &&& here > 0
            &&& z == 1 ==> here == k
            &&& z < 255 ==> share * z <= k < (share + 1) * z
            &&& z < 255 ==> (here == share + 1 <==> share * z + s < k) && (here == share || here
                == share + 1)
        }),
{
    let k = coded_symbols(len, symbol_size);
    let z = source_blocks(len, symbol_size);
    lemma_block_has_symbols(len, symbol_size, s);
    lemma_fundamental_div_mod(k as int, z as int);
    assert((k / z) * z + k % z == k) by (nonlinear_arith)
        requires
            k == z * (k / z) + k % z,
    ;
    assert((k / z + 1) * z == (k / z) * z + z) by (nonlinear_arith);
    if z == 1 {
        assert(k % 1 == 0 && k / 1 == k);
    }
}

/// The payload id of source block zero is a zero byte and the encoding symbol
/// id, most significant byte first.
pub proof fn law_a_payload_id_byte_by_byte(esi: int)
    requires
        0 <= esi < 0x100_0000,
    ensures
        ({
            let p = payload_id(esi);
            &&& p.len() == 4
            &&& p[0] == 0
            &&& 0x1_0000 * p[1] + 0x100 * p[2] + p[3] == esi
        }),
{
    reveal_with_fuel(crate::codec::le_bytes, 5);
}

/// What a packet says of itself: its source block is the first byte, and its
/// encoding symbol id the next three, most significant first; both make up its
/// payload id, which no other source block or symbol has.
pub proof fn law_packets_are_told_apart_by_their_ids(a: Seq<u8>, b: Seq<u8>)
    requires
        a.len() >= 4,
        b.len() >= 4,
    ensures
        esi_of(a) == 0x1_0000 * a[1] + 0x100 * a[2] + a[3],
        id_of(a) == id_of(b) <==> a.subrange(0, 4) == b.subrange(0, 4),
        id_of(a) == id_of(b) <==> a[0] == b[0] && esi_of(a) == esi_of(b),
{
    if a.subrange(0, 4) == b.subrange(0, 4) {
        assert(a[0] == a.subrange(0, 4)[0] && b[0] == b.subrange(0, 4)[0]);
        assert(a[1] == a.subrange(0, 4)[1] && b[1] == b.subrange(0, 4)[1]);
        assert(a[2] == a.subrange(0, 4)[2] && b[2] == b.subrange(0, 4)[2]);
        assert(a[3] == a.subrange(0, 4)[3] && b[3] == b.subrange(0, 4)[3]);
    }
    if id_of(a) == id_of(b) {
        assert(a.subrange(0, 4) =~= b.subrange(0, 4));
    }
}

/// What is kept of a source block, packet by packet: a packet of another source
/// block, or one whose id was there before, adds nothing. Any other adds one
/// symbol, which is a source symbol exactly where its id is below the number of
/// those. A symbol of another size than the code's is remembered, and a source
/// symbol that is too short as such.
pub proof fn law_the_first_of_each_id_is_kept(
    len: nat,
    symbol_size: u16,
    packets: Seq<Seq<u8>>,
    packet: Seq<u8>,
    s: u8,
)
    requires
        packet.len() >= 4,
    ensures
        ({
            let old = tally(len, symbol_size, packets, s);
            let new = tally(len, symbol_size, packets.push(packet), s);
            let before = exists|j: int|
                0 <= j < packets.len() && id_of(#[trigger] packets[j]) == id_of(packet);
            let source = esi_of(packet) < source_block_symbols(len, symbol_size, s);
            let size = packet.len() - 4;
            let t = coded_size(symbol_size);
            &&& packet[0] != s || before ==> new == old
            &&& packet[0] == s && !before ==> {
                &&& new.received == old.received + 1
                &&& source ==> new.sources == old.sources + 1
                &&& !source ==> new.sources == old.sources
                &&& new.odd <==> old.odd || size != t
                &&& new.short <==> old.short || (source && size < t)
            }
            &&& packets.len() == 0 ==> old.received == 0 && old.sources == 0 && !old.odd
                && !old.short
        }),
{
    assert(packets.push(packet).drop_last() =~= packets);
}

/// A packet is taken exactly where its source block is one of the object's and
/// the decoder, if it has not given the object before, does not come to a
/// symbol that it cannot work with: it has too few symbols yet; or all source
/// symbols, and none is too short; or else all have the code's size.
pub proof fn law_a_packet_is_taken_if_the_decoder_can_work(
    len: u64,
    symbol_size: u16,
    packets: Seq<Seq<u8>>,
    packet: Seq<u8>,
)
    requires
        decodable(len as nat, symbol_size),
        packet.len() >= 4,
    ensures
        ({
            let now = packets.push(packet);
            let k = source_block_symbols(len as nat, symbol_size, packet[0]);
            let t = tally(len as nat, symbol_size, now, packet[0]);
            takes(len, symbol_size, now) <==> packet[0] < source_blocks(len as nat, symbol_size)
                && ((packets.len() > 0 && raptorq_decoded(len, symbol_size, packets) is Some)
                || t.received < k || (t.sources >= k && !t.short) || !t.odd)
        }),
{
    let now = packets.push(packet);
    assert(now.drop_last() =~= packets);
    let s = packet[0];
    lemma_odd_if_short(len as nat, symbol_size, now, s);
}

proof fn lemma_odd_if_short(len: nat, symbol_size: u16, packets: Seq<Seq<u8>>, s: u8)
    ensures
        tally(len, symbol_size, packets, s).short ==> tally(len, symbol_size, packets, s).odd,
    decreases packets.len(),
{
    if packets.len() > 0 {
        lemma_odd_if_short(len, symbol_size, packets.drop_last(), s);
    }
}

/// The cache holds what was used last: the block that was asked for comes to
/// the front; the others follow in their order, and where there are more than
/// eight in all, only the last is forgotten.
pub proof fn law_the_cache_keeps_what_was_used_last(ids: Seq<u32>, b: u32)
    requires
        ids.no_duplicates(),
        ids.len() <= 8,
    ensures
        ({
            let now = touched(ids, b);
            &&& now.len() <= 8
            &&& now[0] == b
            &&& now.no_duplicates()
            &&& forall|c: u32| #[trigger] now.contains(c) ==> c == b || ids.contains(c)
            &&& ids.contains(b) ==> now.len() == ids.len() && forall|c: u32|
                ids.contains(c) ==> #[trigger] now.contains(c)
            &&& !ids.contains(b) && ids.len() < 8 ==> now == seq![b] + ids
            &&& !ids.contains(b) && ids.len() == 8 ==> now == seq![b] + ids.drop_last()
            &&& forall|i: int|
                0 <= i < ids.len() && ids[i] == b ==> #[trigger] ids[i] == b && now == seq![b]
                    + ids.take(i) + ids.skip(i + 1)
        }),
{
    let now = touched(ids, b);
    if ids.contains(b) {
        let p = ids.index_of(b);
        let i = choose|i: int| 0 <= i < ids.len() && ids[i] == b;
        assert(ids[p] == b);
        assert(now =~= seq![b] + ids.take(p) + ids.skip(p + 1));
        assert forall|c: u32| ids.contains(c) implies #[trigger] now.contains(c) by {
            let j = choose|j: int| 0 <= j < ids.len() && ids[j] == c;
            if j < p {
                assert(now[j + 1] == c);
            } else if j == p {
                assert(now[0] == c);
            } else {
                assert(now[j] == c);
            }
        }
        assert forall|c: u32| #[trigger] now.contains(c) implies c == b || ids.contains(c) by {
            let j = choose|j: int| 0 <= j < now.len() && now[j] == c;
            if j > 0 {
                if j - 1 < p {
                    assert(ids[j - 1] == c);
                } else {
                    assert(ids[j] == c);
                }
            }
        }
        assert forall|i: int| 0 <= i < ids.len() && ids[i] == b implies #[trigger] ids[i] == b
            && now == seq![b] + ids.take(i) + ids.skip(i + 1) by {
            assert(i == p);
        }
    } else {
        if ids.len() == 8 {
            assert(now =~= seq![b] + ids.drop_last());
        }
        assert forall|c: u32| #[trigger] now.contains(c) implies c == b || ids.contains(c) by {
            let j = choose|j: int| 0 <= j < now.len() && now[j] == c;
            if j > 0 {
                assert(ids[j - 1] == c);
            }
        }
        assert forall|i: int, j: int| 0 <= i < now.len() && 0 <= j < now.len() && i != j implies now[i]
            != now[j] by {
            if i == 0 {
                assert(ids[j - 1] == now[j]);
            } else if j == 0 {
                assert(ids[i - 1] == now[i]);
            } else {
                assert(ids[i - 1] != ids[j - 1]);
            }
        }
    }
}

} // verus!
