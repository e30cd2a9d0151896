//! Control frames, each a length prefix and a JSON body on the control
//! connection.
//!
//! Frames are small and rare: a handshake, and one acknowledgement for each
//! decoded block. This module has the frames themselves, the length prefix
//! and its limit; turning a frame into JSON and back is the program's part.

use vstd::prelude::*;
use vstd::slice::slice_subrange;
use vstd::string::StringExecFns;
use crate::codec::{le_bytes, le_value, lemma_byte_range, lemma_le_len, lemma_le_round_trip};
use crate::codec::{law_bytes_count_by_their_places, push_bytes, push_u32_le, read_u32_le};
use crate::error::Error;
use crate::text::{decimal, push_decimal, quote, quoted};

verus! {

/// Control-protocol version.
pub const VERSION: u32 = 2;

/// Upper bound on a single control frame, so that a peer cannot ask for
/// gigabytes to be buffered.
pub const MAX_FRAME_LEN: u32 = 0x10_0000;

/// Bytes of the length prefix.
pub const PREFIX_LEN: usize = 4;

/// A control frame. Sender to receiver: `Hello`, `Manifest`. Receiver to
/// sender: `HelloAck`, `ManifestAck`, `BlockDecoded`, `Progress`, `Done`.
#[derive(Debug, Clone)]
pub enum Frame {
    Hello {
        version: u32,
        /// Tag of this transfer; repeated in every datagram so that the
        /// receiver can discard strays.
        transfer_tag: u64,
    },
    HelloAck {
        /// UDP port that the receiver bound for the symbol plane.
        udp_port: u16,
    },
    Manifest {
        file_name: String,
        file_size: u64,
        /// Hexadecimal SHA-256 of the whole file.
        sha256: String,
        block_size: u32,
        symbol_size: u16,
        num_blocks: u32,
    },
    ManifestAck,
    /// The receiver decoded this block; the sender can stop repairing it.
    BlockDecoded { index: u32 },
    /// Periodic report: datagrams authenticated so far, the span of sequence
    /// numbers that they came from (sealed planes), and the receiver's clock
    /// in milliseconds since the transfer began. Intervals are measured where
    /// the packets are counted.
    Progress { pkts: u64, span: Option<u64>, t_ms: u64 },
    /// The receiver finished: all blocks decoded and the hash checked.
    Done { ok: bool, error: Option<String> },
}

/// The text of a truth value.
pub open spec fn bool_text(b: bool) -> Seq<char> {
    if b {
        "true"@
    } else {
        "false"@
    }
}

/// The text of a number that may be missing.
pub open spec fn option_number_text(n: Option<u64>) -> Seq<char> {
    match n {
        None => "None"@,
        Some(x) => "Some("@ + decimal(x as nat) + ")"@,
    }
}

/// The text of a string that may be missing.
pub open spec fn option_string_text(s: Option<String>) -> Seq<char> {
    match s {
        None => "None"@,
        Some(x) => "Some("@ + quoted(x@) + ")"@,
    }
}

impl Frame {
    /// The frame as a diagnostic shows it.
    pub open spec fn shown(self) -> Seq<char> {
        match self {
            Frame::Hello { version, transfer_tag } => "Hello { version: "@ + decimal(version as nat)
                + ", transfer_tag: "@ + decimal(transfer_tag as nat) + " }"@,
            Frame::HelloAck { udp_port } => "HelloAck { udp_port: "@ + decimal(udp_port as nat)
                + " }"@,
            Frame::Manifest {
                file_name,
                file_size,
                sha256,
                block_size,
                symbol_size,
                num_blocks,
            } => "Manifest { file_name: "@ + quoted(file_name@) + ", file_size: "@ + decimal(
                file_size as nat,
            ) + ", sha256: "@ + quoted(sha256@) + ", block_size: "@ + decimal(block_size as nat)
                + ", symbol_size: "@ + decimal(symbol_size as nat) + ", num_blocks: "@ + decimal(
                num_blocks as nat,
            ) + " }"@,
            Frame::ManifestAck => "ManifestAck"@,
            Frame::BlockDecoded { index } => "BlockDecoded { index: "@ + decimal(index as nat)
                + " }"@,
            Frame::Progress { pkts, span, t_ms } => "Progress { pkts: "@ + decimal(pkts as nat)
                + ", span: "@ + option_number_text(span) + ", t_ms: "@ + decimal(t_ms as nat)
                + " }"@,
            Frame::Done { ok, error } => "Done { ok: "@ + bool_text(ok) + ", error: "@
                + option_string_text(error) + " }"@,
        }
    }

    /// The frame as a diagnostic shows it.
    pub fn debug_text(&self) -> (r: String)
        ensures
            r@ == self.shown(),
    {
        let mut r = String::new();
        match self {
            Frame::Hello { version, transfer_tag } => {
                r.append("Hello { version: ");
                push_decimal(&mut r, *version as u64);
                r.append(", transfer_tag: ");
                push_decimal(&mut r, *transfer_tag);
                r.append(" }");
            },
            Frame::HelloAck { udp_port } => {
                r.append("HelloAck { udp_port: ");
                push_decimal(&mut r, *udp_port as u64);
                r.append(" }");
            },
            Frame::Manifest {
                file_name,
                file_size,
                sha256,
                block_size,
                symbol_size,
                num_blocks,
            } => {
                r.append("Manifest { file_name: ");
                r.append(quote(file_name.as_str()).as_str());
                r.append(", file_size: ");
                push_decimal(&mut r, *file_size);
                r.append(", sha256: ");
                r.append(quote(sha256.as_str()).as_str());
                r.append(", block_size: ");
                push_decimal(&mut r, *block_size as u64);
                r.append(", symbol_size: ");
                push_decimal(&mut r, *symbol_size as u64);
                r.append(", num_blocks: ");
                push_decimal(&mut r, *num_blocks as u64);
                r.append(" }");
            },
            Frame::ManifestAck => {
                r.append("ManifestAck");
            },
            Frame::BlockDecoded { index } => {
                r.append("BlockDecoded { index: ");
                push_decimal(&mut r, *index as u64);
                r.append(" }");
            },
            Frame::Progress { pkts, span, t_ms } => {
                r.append("Progress { pkts: ");
                push_decimal(&mut r, *pkts);
                r.append(", span: ");
                push_option_number(&mut r, *span);
                r.append(", t_ms: ");
                push_decimal(&mut r, *t_ms);
                r.append(" }");
            },
            Frame::Done { ok, error } => {
                r.append("Done { ok: ");
                if *ok {
                    r.append("true");
                } else {
                    r.append("false");
                }
                r.append(", error: ");
                push_option_string(&mut r, error);
                r.append(" }");
            },
        }
        assert(r@ =~= self.shown());
        r
    }
}

/// Append a number that may be missing.
fn push_option_number(out: &mut String, n: Option<u64>)
    ensures
        final(out)@ == old(out)@ + option_number_text(n),
{
    match n {
        None => {
            out.append("None");
        },
        Some(x) => {
            out.append("Some(");
            push_decimal(out, x);
            out.append(")");
        },
    }
    assert(out@ =~= old(out)@ + option_number_text(n));
}

/// Append a string that may be missing.
fn push_option_string(out: &mut String, s: &Option<String>)
    ensures
        final(out)@ == old(out)@ + option_string_text(*s),
{
    match s {
        None => {
            out.append("None");
        },
        Some(x) => {
            out.append("Some(");
            out.append(quote(x.as_str()).as_str());
            out.append(")");
        },
    }
    assert(out@ =~= old(out)@ + option_string_text(*s));
}

/// A protocol error: what was expected, then the frame that came.
pub fn unexpected(expected: &str, got: &Frame) -> (e: Error)
    ensures
        e matches Error::Protocol(m) && m@ == "expected "@ + expected@ + ", got "@ + got.shown(),
{
    let mut m = "expected ".to_owned();
    m.append(expected);
    m.append(", got ");
    m.append(got.debug_text().as_str());
    Error::Protocol(m)
}

/// A framed body: its length, least significant byte first, then itself.
pub open spec fn framed(body: Seq<u8>) -> Seq<u8> {
    le_bytes(body.len(), 4) + body
}

/// Put the length prefix in front of a frame's body.
pub fn write_frame(body: &[u8]) -> (r: Result<Vec<u8>, Error>)
    ensures
        body@.len() <= u32::MAX ==> (r matches Ok(out) && out@ == framed(body@)),
        body@.len() > u32::MAX ==> (r matches Err(Error::Protocol(m)) && m@ == "frame too large"@),
{
    assert(body@.len() == body.len());
    if body.len() as u64 > u32::MAX as u64 {
        return Err(Error::protocol("frame too large"));
    }
    let mut out: Vec<u8> = Vec::new();
    push_u32_le(&mut out, body.len() as u32);
    push_bytes(&mut out, body);
    assert(out@ =~= framed(body@));
    Ok(out)
}

/// What a length prefix stands for.
pub open spec fn announced(prefix: Seq<u8>) -> nat {
    le_value(prefix)
}

/// The body length that a prefix announces, or an error where it exceeds the
/// limit.
pub fn frame_len(prefix: &[u8; PREFIX_LEN]) -> (r: Result<u32, Error>)
    ensures
        announced(prefix@) <= MAX_FRAME_LEN ==> (r matches Ok(n) && n == announced(prefix@)),
        announced(prefix@) > MAX_FRAME_LEN ==> (r matches Err(Error::Protocol(m)) && m@
            == "frame length "@ + decimal(announced(prefix@)) + " exceeds limit"@),
{
    let n: u32 = read_u32_le(prefix, 0);
    assert(prefix@.subrange(0, 4) =~= prefix@);
    if n > MAX_FRAME_LEN {
        let mut m = "frame length ".to_owned();
        push_decimal(&mut m, n as u64);
        m.append(" exceeds limit");
        return Err(Error::Protocol(m));
    }
    Ok(n)
}

/// What can be taken off the front of what was read.
pub enum Taken {
    /// Nothing yet.
    More,
    /// Nothing ever: the frame is over the limit.
    Refused,
    /// This body.
    Body(Seq<u8>),
}

/// What can be taken off the front of what was read.
pub open spec fn taken_off(buf: Seq<u8>) -> Taken {
    if buf.len() < PREFIX_LEN {
        Taken::More
    } else {
        let n = announced(buf.subrange(0, 4));
        if n > MAX_FRAME_LEN {
            Taken::Refused
        } else if buf.len() < PREFIX_LEN + n {
            Taken::More
        } else {
            Taken::Body(buf.subrange(4, 4 + n as int))
        }
    }
}

/// Take one frame's body off the front of what was read, and say how many
/// bytes it used. `Ok(None)` means that more has to be read first.
pub fn read_frame<'a>(buf: &'a [u8]) -> (r: Result<Option<(&'a [u8], usize)>, Error>)
    ensures
        match taken_off(buf@) {
            Taken::More => r == Ok::<Option<(&[u8], usize)>, Error>(None),
            Taken::Refused => r matches Err(e) && e is Protocol,
            Taken::Body(b) => r matches Ok(Some((body, used))) && body@ == b && used == 4 + b.len(),
        },
        buf@.len() < PREFIX_LEN ==> r == Ok::<Option<(&[u8], usize)>, Error>(None),
        buf@.len() >= PREFIX_LEN ==> {
            let n = announced(buf@.subrange(0, 4));
            if n > MAX_FRAME_LEN {
                r matches Err(Error::Protocol(m)) && m@ == "frame length "@ + decimal(n)
                    + " exceeds limit"@
            } else if buf@.len() < PREFIX_LEN + n {
                r == Ok::<Option<(&[u8], usize)>, Error>(None)
            } else {
                r matches Ok(Some((body, used))) && body@ == buf@.subrange(4, 4 + n as int) && used
                    == 4 + n
            }
        },
{
    assert(buf@.len() == buf.len());
    if buf.len() < PREFIX_LEN {
        return Ok(None);
    }
    let prefix: [u8; PREFIX_LEN] = [buf[0], buf[1], buf[2], buf[3]];
    assert(prefix@ =~= buf@.subrange(0, 4));
    match frame_len(&prefix) {
        Err(e) => Err(e),
        Ok(n) => {
            if buf.len() - PREFIX_LEN < n as usize {
                return Ok(None);
            }
            let used: usize = PREFIX_LEN + n as usize;
            Ok(Some((slice_subrange(buf, PREFIX_LEN, used), used)))
        },
    }
}

/// A body that is not over the limit is read back as it was framed, whatever
/// follows it.
pub proof fn law_framing_round_trip(body: Seq<u8>, rest: Seq<u8>)
    requires
        body.len() <= MAX_FRAME_LEN,
    ensures
        announced((framed(body) + rest).subrange(0, 4)) == body.len(),
        (framed(body) + rest).subrange(4, 4 + body.len() as int) == body,
        (framed(body) + rest).subrange(4 + body.len() as int, (framed(body) + rest).len() as int) == rest,
{
    let buf = framed(body) + rest;
    lemma_le_len(body.len(), 4);
    lemma_byte_range();
    lemma_le_round_trip(body.len(), 4);
    assert(buf.subrange(0, 4) =~= le_bytes(body.len(), 4));
    assert(buf.subrange(4, 4 + body.len() as int) =~= body);
    assert(buf.subrange(4 + body.len() as int, buf.len() as int) =~= rest);
}

/// A frame on the wire is four bytes more than its body: the body's length,
/// least significant byte first, and then the body.
pub proof fn law_a_frame_begins_with_its_length(body: Seq<u8>)
    requires
        body.len() <= u32::MAX,
    ensures
        ({
            let f = framed(body);
            &&& f.len() == body.len() + 4
            &&& f[0] + 0x100 * f[1] + 0x1_0000 * f[2] + 0x100_0000 * f[3] == body.len()
            &&& f.subrange(4, f.len() as int) == body
        }),
{
    let f = framed(body);
    lemma_le_len(body.len(), 4);
    lemma_byte_range();
    lemma_le_round_trip(body.len(), 4);
    law_bytes_count_by_their_places(le_bytes(body.len(), 4));
    assert(f.subrange(4, f.len() as int) =~= body);
}

/// A prefix announces the number that its four bytes make, least significant
/// first. The limit on what may be announced is one mebibyte.
pub proof fn law_a_prefix_announces_a_length(prefix: Seq<u8>)
    requires
        prefix.len() == 4,
    ensures
        announced(prefix) == prefix[0] + 0x100 * prefix[1] + 0x1_0000 * prefix[2] + 0x100_0000
            * prefix[3],
        MAX_FRAME_LEN == 1024 * 1024,
{
    law_bytes_count_by_their_places(prefix);
}

/// Reading what was framed gives the body back, whatever follows; of less than
/// the whole frame more has to be read; and a frame is refused exactly where it
/// announces more than a mebibyte, as soon as its prefix is there.
pub proof fn law_frames_are_read_when_they_are_there(buf: Seq<u8>)
    ensures
        buf.len() < 4 ==> taken_off(buf) is More,
        buf.len() >= 4 ==> {
            let n = buf[0] + 0x100 * buf[1] + 0x1_0000 * buf[2] + 0x100_0000 * buf[3];
            &&& taken_off(buf) is Refused <==> n > 1024 * 1024
            &&& n <= 1024 * 1024 ==> (taken_off(buf) is More <==> buf.len() < 4 + n)
            &&& taken_off(buf) matches Taken::Body(body) ==> body.len() == n && body
                == buf.subrange(4, 4 + n)
        },
{
    if buf.len() >= 4 {
        law_bytes_count_by_their_places(buf.subrange(0, 4));
    }
}

/// The text that a diagnostic shows of each frame.
pub proof fn law_frames_are_shown_by_name_and_fields(frame: Frame)
    ensures
        frame matches Frame::Hello { version, transfer_tag } ==> frame.shown()
            == "Hello { version: "@ + decimal(version as nat) + ", transfer_tag: "@ + decimal(
            transfer_tag as nat,
        ) + " }"@,
        frame matches Frame::HelloAck { udp_port } ==> frame.shown() == "HelloAck { udp_port: "@
            + decimal(udp_port as nat) + " }"@,
        frame is ManifestAck ==> frame.shown() == "ManifestAck"@,
        frame matches Frame::BlockDecoded { index } ==> frame.shown()
            == "BlockDecoded { index: "@ + decimal(index as nat) + " }"@,
        frame matches Frame::Progress { pkts, span, t_ms } ==> {
            &&& span is None ==> frame.shown() == "Progress { pkts: "@ + decimal(pkts as nat)
                + ", span: "@ + "None"@ + ", t_ms: "@ + decimal(t_ms as nat) + " }"@
            &&& span matches Some(n) ==> frame.shown() == "Progress { pkts: "@ + decimal(
                pkts as nat,
            ) + ", span: "@ + ("Some("@ + decimal(n as nat) + ")"@) + ", t_ms: "@ + decimal(
                t_ms as nat,
            ) + " }"@
        },
        frame matches Frame::Done { ok, error } ==> {
            let flag = if ok {
                "true"@
            } else {
                "false"@
            };
            &&& error is None ==> frame.shown() == "Done { ok: "@ + flag + ", error: "@ + "None"@
                + " }"@
            &&& error matches Some(m) ==> frame.shown() == "Done { ok: "@ + flag + ", error: "@ + (
            "Some("@ + quoted(m@) + ")"@) + " }"@
        },
{
}

} // verus!
