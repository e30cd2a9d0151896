//! The sending side: what to spray, when to repair, when to stop.
//!
//! This module has the choices before a transfer, the handshake, and what the
//! sender makes of the receiver's feedback. The rounds themselves are in
//! [`crate::sender`].

use vstd::prelude::*;
use crate::blocks::Layout;
use crate::digest::is_hex;
use crate::error::Error;
use crate::text::{join, quoted};
use crate::tls::{cleaned, parse_pin, pinned};
use crate::wire::{unexpected, Frame, VERSION};

verus! {

/// Feedback from the receiver, as the control connection delivers it.
#[derive(Debug)]
pub enum Feedback {
    /// A block was decoded.
    Decoded(u32),
    /// Datagrams authenticated so far, the span of sequence numbers that they
    /// came from, and the receiver's clock.
    Progress { pkts: u64, span: Option<u64>, t_ms: u64 },
    /// The receiver finished.
    Done { ok: bool, error: Option<String> },
    /// The control connection ended without `Done`.
    Closed(String),
}

/// `fb` is the feedback that the frame carries.
pub open spec fn heard_as(frame: Frame, fb: Feedback) -> bool {
    match frame {
        Frame::BlockDecoded { index } => fb == Feedback::Decoded(index),
        Frame::Progress { pkts, span, t_ms } => fb == (Feedback::Progress { pkts, span, t_ms }),
        Frame::Done { ok, error } => fb == (Feedback::Done { ok, error }),
        _ => fb matches Feedback::Closed(why) && why@ == "unexpected frame "@ + frame.shown(),
    }
}

/// The feedback that a frame of the receiver carries. A frame that has no
/// place after the handshake ends the connection.
pub fn feedback_of(frame: Frame) -> (fb: Feedback)
    ensures
        heard_as(frame, fb),
{
    match frame {
        Frame::BlockDecoded { index } => Feedback::Decoded(index),
        Frame::Progress { pkts, span, t_ms } => Feedback::Progress { pkts, span, t_ms },
        Frame::Done { ok, error } => Feedback::Done { ok, error },
        f => Feedback::Closed(join("unexpected frame ", f.debug_text().as_str())),
    }
}

/// The feedback that stands for a control connection which failed.
pub fn feedback_of_failure(e: &Error) -> (fb: Feedback)
    ensures
        fb matches Feedback::Closed(why) && why@ == e.shown(),
{
    Feedback::Closed(e.message())
}

/// Whether the control connection is read on after this feedback.
pub fn reads_on(fb: &Feedback) -> (r: bool)
    ensures
        r == (fb is Decoded || fb is Progress),
{
    match fb {
        Feedback::Decoded(_) => true,
        Feedback::Progress { .. } => true,
        _ => false,
    }
}

/// The error for a control connection whose reader is gone.
pub fn disconnected() -> (e: Error)
    ensures
        e matches Error::Protocol(m) && m@ == "control connection lost"@,
{
    Error::protocol("control connection lost")
}

/// How many of `s` are set.
pub open spec fn count_set(s: Seq<bool>) -> nat
    decreases s.len(),
{
    if s.len() == 0 {
        0
    } else {
        count_set(s.drop_last()) + if s.last() {
            1nat
        } else {
            0
        }
    }
}

/// The count of what is set reaches the length exactly when all is set.
pub proof fn lemma_count_bound(s: Seq<bool>)
    ensures
        count_set(s) <= s.len(),
        (forall|i: int| 0 <= i < s.len() ==> s[i]) <==> count_set(s) == s.len(),
    decreases s.len(),
{
    if s.len() > 0 {
        let t = s.drop_last();
        lemma_count_bound(t);
        if count_set(s) == s.len() {
            assert(forall|i: int| 0 <= i < t.len() ==> t[i] == s[i]);
            assert forall|i: int| 0 <= i < s.len() implies s[i] by {
                if i < t.len() {
                    assert(t[i]);
                }
            }
        } else if forall|i: int| 0 <= i < s.len() ==> s[i] {
            assert(forall|i: int| 0 <= i < t.len() ==> t[i] == s[i]);
            assert(s[s.len() - 1]);
        }
    }
}

proof fn lemma_count_update(s: Seq<bool>, i: int)
    requires
        0 <= i < s.len(),
        !s[i],
    ensures
        count_set(s.update(i, true)) == count_set(s) + 1,
    decreases s.len(),
{
    let u = s.update(i, true);
    if i == s.len() - 1 {
        assert(u.drop_last() =~= s.drop_last());
    } else {
        lemma_count_update(s.drop_last(), i);
        assert(u.drop_last() =~= s.drop_last().update(i, true));
    }
}

proof fn lemma_count_none(s: Seq<bool>)
    requires
        forall|i: int| 0 <= i < s.len() ==> !s[i],
    ensures
        count_set(s) == 0,
    decreases s.len(),
{
    if s.len() > 0 {
        assert(forall|i: int| 0 <= i < s.drop_last().len() ==> s.drop_last()[i] == s[i]);
        lemma_count_none(s.drop_last());
    }
}

/// The numbers below `n` that are not set, in order.
pub open spec fn unset(s: Seq<bool>, n: nat) -> Seq<u32>
    decreases n,
{
    if n == 0 {
        Seq::empty()
    } else if s[n - 1] {
        unset(s, (n - 1) as nat)
    } else {
        unset(s, (n - 1) as nat).push((n - 1) as u32)
    }
}

/// Which blocks the receiver has acknowledged, and how many they are.
pub struct Acks {
    acked: Vec<bool>,
    count: u32,
}

impl View for Acks {
    type V = Seq<bool>;

    closed spec fn view(&self) -> Seq<bool> {
        self.acked@
    }
}

impl Acks {
    /// The count is that of the acknowledged blocks.
    #[verifier::type_invariant]
    spec fn wf(self) -> bool {
        &&& self.acked@.len() <= u32::MAX
        &&& self.count == count_set(self.acked@)
    }

    /// Nothing acknowledged yet.
    pub fn new(num_blocks: u32) -> (a: Self)
        ensures
            a@ == Seq::new(num_blocks as nat, |i: int| false),
    {
        let mut acked: Vec<bool> = Vec::new();
        let mut i: u32 = 0;
        while i < num_blocks
            invariant
                i <= num_blocks,
                acked@.len() == i,
                forall|j: int| 0 <= j < i ==> !acked@[j],
            decreases num_blocks - i,
        {
            acked.push(false);
            i = i + 1;
        }
        proof {
            lemma_count_none(acked@);
            assert(acked@ =~= Seq::new(num_blocks as nat, |i: int| false));
        }
        Acks { acked, count: 0 }
    }

    /// Note that block `index` was decoded. A number that is no block's, or a
    /// block that was noted before, changes nothing.
    pub fn mark(&mut self, index: u32)
        ensures
            final(self)@ == if index < old(self)@.len() {
                old(self)@.update(index as int, true)
            } else {
                old(self)@
            },
    {
        proof {
            use_type_invariant(&*self);
        }
        proof {
            lemma_count_none(Seq::<bool>::empty());
        }
        let mut whole = Acks { acked: Vec::new(), count: 0 };
        core::mem::swap(&mut whole, self);
        let Acks { mut acked, mut count } = whole;
        let i: usize = index as usize;
        if i < acked.len() && !acked[i] {
            proof {
                lemma_count_update(acked@, i as int);
                lemma_count_bound(acked@.update(i as int, true));
            }
            acked.set(i, true);
            count = count + 1;
        } else if i < acked.len() {
            assert(acked@.update(i as int, true) =~= acked@);
        }
        *self = Acks { acked, count };
    }

    /// Whether block `index` is acknowledged.
    pub fn is_acked(&self, index: u32) -> (r: bool)
        requires
            index < self@.len(),
        ensures
            r == self@[index as int],
    {
        self.acked[index as usize]
    }

    /// How many blocks are acknowledged.
    pub fn count(&self) -> (n: u32)
        ensures
            n == count_set(self@),
            n <= self@.len(),
            n == self@.len() <==> forall|i: int| 0 <= i < self@.len() ==> self@[i],
    {
        proof {
            use_type_invariant(self);
            lemma_count_bound(self.acked@);
        }
        self.count
    }

    /// The blocks that are not acknowledged, in order.
    pub fn pending(&self) -> (r: Vec<u32>)
        ensures
            r@ == unset(self@, self@.len()),
            forall|i: int| 0 <= i < r@.len() ==> #[trigger] r@[i] < self@.len(),
    {
        proof {
            use_type_invariant(self);
        }
        let mut r: Vec<u32> = Vec::new();
        let n: usize = self.acked.len();
        let mut i: usize = 0;
        while i < n
            invariant
                n == self.acked@.len(),
                n <= u32::MAX,
                i <= n,
                r@ == unset(self.acked@, i as nat),
                forall|j: int| 0 <= j < r@.len() ==> #[trigger] r@[j] < n,
            decreases n - i,
        {
            if !self.acked[i] {
                r.push(i as u32);
            }
            i = i + 1;
        }
        r
    }
}

/// Refuse a file with nothing in it.
pub fn refuse_empty(len: usize) -> (r: Result<(), Error>)
    ensures
        len > 0 ==> r is Ok,
        len == 0 ==> (r matches Err(Error::Transfer(m)) && m@ == "refusing to send an empty file"@),
{
    if len == 0 {
        return Err(Error::Transfer("refusing to send an empty file".to_owned()));
    }
    Ok(())
}

/// How the control connection comes about.
#[derive(Debug, Clone, Copy, PartialEq, Eq, Structural)]
pub enum Rendezvous {
    /// The sender dials the receiver.
    Push,
    /// The sender listens for the receiver.
    Pull,
}

/// Choose how the control connection comes about: by whichever of a receiver
/// to dial and an address to listen on was given.
pub fn choose_rendezvous(has_dest: bool, has_listen: bool) -> (r: Result<Rendezvous, Error>)
    ensures
        has_dest && !has_listen ==> r == Ok::<Rendezvous, Error>(Rendezvous::Push),
        !has_dest && has_listen ==> r == Ok::<Rendezvous, Error>(Rendezvous::Pull),
        has_dest == has_listen ==> (r matches Err(Error::Transfer(m)) && m@
            == "pass exactly one of <dest> (push) or --listen (pull)"@),
{
    if has_dest && !has_listen {
        Ok(Rendezvous::Push)
    } else if !has_dest && has_listen {
        Ok(Rendezvous::Pull)
    } else {
        Err(Error::Transfer("pass exactly one of <dest> (push) or --listen (pull)".to_owned()))
    }
}

/// How a transfer is protected.
#[derive(Debug, Clone, Copy, PartialEq, Eq)]
pub enum Security {
    /// Not at all.
    Plaintext,
    /// By TLS to the receiver whose certificate has this digest.
    Pinned([u8; 32]),
}

/// Choose how a transfer is protected. Without a pin nothing but plaintext
/// that was asked for is possible.
pub fn choose_security(nocrypto: bool, pin: Option<&str>) -> (r: Result<Security, Error>)
    ensures
        nocrypto ==> (r matches Ok(s) && s is Plaintext),
        !nocrypto ==> match pin {
            None => r matches Err(Error::Transfer(m)) && m@
                == "--pin <sha256> required (copy it from `atp-experiment recv` output), or --nocrypto"@,
            Some(text) => match pinned(text@) {
                Some(d) => r matches Ok(Security::Pinned(p)) && p@ == d,
                None => r matches Err(Error::Transfer(m)) && m@ == if is_hex(cleaned(text@)) {
                    "--pin must be a 32-byte (64 hex char) SHA-256"@
                } else {
                    "--pin is not valid hex: "@ + quoted(text@)
                },
            },
        },
{
    if nocrypto {
        return Ok(Security::Plaintext);
    }
    match pin {
        None => Err(
            Error::Transfer(
                "--pin <sha256> required (copy it from `atp-experiment recv` output), or --nocrypto".to_owned(),
            ),
        ),
        Some(text) => match parse_pin(text) {
            Ok(p) => Ok(Security::Pinned(p)),
            Err(e) => Err(e),
        },
    }
}

/// A transfer tag made of a clock reading and a process number. It is no
/// secret; it only tells one transfer's datagrams from another's.
pub fn transfer_tag(nanos: u64, process: u32) -> (tag: u64)
    ensures
        tag == nanos ^ ((process as u64) << 32),
{
    nanos ^ ((process as u64) << 32)
}

/// Two processes that read the same clock value get different tags.
pub proof fn law_tags_tell_processes_apart(nanos: u64, a: u32, b: u32)
    requires
        a != b,
    ensures
        nanos ^ ((a as u64) << 32) != nanos ^ ((b as u64) << 32),
{
    assert(nanos ^ ((a as u64) << 32) != nanos ^ ((b as u64) << 32)) by (bit_vector)
        requires
            a != b,
    ;
}

/// The sender's greeting.
pub fn hello(transfer_tag: u64) -> (f: Frame)
    ensures
        f == (Frame::Hello { version: VERSION, transfer_tag }),
{
    Frame::Hello { version: VERSION, transfer_tag }
}

/// What the answer to the greeting comes to: the receiver's UDP port.
pub open spec fn answered(frame: Frame, r: Result<u16, Error>) -> bool {
    match frame {
        Frame::HelloAck { udp_port } => r == Ok::<u16, Error>(udp_port),
        _ => r matches Err(Error::Protocol(m)) && m@ == "expected "@ + "HelloAck"@ + ", got "@
            + frame.shown(),
    }
}

/// The receiver's UDP port, from its answer to the greeting.
pub fn check_hello_ack(frame: &Frame) -> (r: Result<u16, Error>)
    ensures
        answered(*frame, r),
{
    match frame {
        Frame::HelloAck { udp_port } => Ok(*udp_port),
        _ => Err(unexpected("HelloAck", frame)),
    }
}

/// The description of a file.
pub open spec fn manifest_of(file_name: String, sha256: String, layout: Layout) -> Frame {
    Frame::Manifest {
        file_name,
        file_size: layout.file_size,
        sha256,
        block_size: layout.block_size,
        symbol_size: layout.symbol_size,
        num_blocks: layout.num_blocks,
    }
}

/// The description of the file that is sent after the greeting.
pub fn manifest(file_name: String, sha256: String, layout: &Layout) -> (f: Frame)
    ensures
        f == manifest_of(file_name, sha256, *layout),
{
    Frame::Manifest {
        file_name,
        file_size: layout.file_size,
        sha256,
        block_size: layout.block_size,
        symbol_size: layout.symbol_size,
        num_blocks: layout.num_blocks,
    }
}

/// What the answer to the manifest comes to.
pub open spec fn agreed(frame: Frame, r: Result<(), Error>) -> bool {
    if frame is ManifestAck {
        r is Ok
    } else {
        r matches Err(Error::Protocol(m)) && m@ == "expected "@ + "ManifestAck"@ + ", got "@
            + frame.shown()
    }
}

/// Check the receiver's answer to the manifest.
pub fn check_manifest_ack(frame: &Frame) -> (r: Result<(), Error>)
    ensures
        agreed(*frame, r),
{
    match frame {
        Frame::ManifestAck => Ok(()),
        _ => Err(unexpected("ManifestAck", frame)),
    }
}

/// Reports whose intervals cover fewer datagrams than this are merged with
/// the next.
pub const MIN_LOSS_INTERVAL: u64 = 50;

/// What a report says about loss.
#[derive(Debug, Clone, Copy, PartialEq, Eq, Structural)]
pub enum LossSample {
    /// Too little to say; the interval goes on.
    Merged,
    /// The first report, over the whole transfer so far. It says nothing
    /// where nothing was sent.
    First { received: u64, sent: u64 },
    /// The interval since the report before.
    Interval { received: u64, sent: u64 },
}

/// Cuts the receiver's cumulative counts into intervals for the loss
/// estimate. Intervals, because a ratio over the whole transfer would stay
/// polluted by the overshoot at its start.
pub struct LossMeter {
    last: Option<(u64, u64)>,
}

/// `a - b`, or zero.
pub open spec fn less(a: u64, b: u64) -> u64 {
    if a >= b {
        (a - b) as u64
    } else {
        0
    }
}

/// Where a loss interval begins after a report, and what the report says.
pub open spec fn sampled(
    last: Option<(u64, u64)>,
    received: u64,
    sent: u64,
) -> (Option<(u64, u64)>, LossSample) {
    match last {
        None => (Some((received, sent)), LossSample::First { received, sent }),
        Some((r, s)) => if less(sent, s) < MIN_LOSS_INTERVAL {
            (last, LossSample::Merged)
        } else {
            (
                Some((received, sent)),
                LossSample::Interval { received: less(received, r), sent: less(sent, s) },
            )
        },
    }
}

/// A report after the first is merged exactly while fewer than 50 datagrams
/// were sent since the interval began, and then changes nothing. Otherwise it
/// says what was sent and received since, and the next interval begins here.
/// The first says what it counts itself.
pub proof fn law_loss_is_measured_by_intervals(
    last: Option<(u64, u64)>,
    received: u64,
    sent: u64,
)
    ensures
        ({
            let (next, sample) = sampled(last, received, sent);
            &&& last is None ==> sample == (LossSample::First { received, sent })
            &&& last matches Some((r0, s0)) ==> {
                &&& sample is Merged <==> sent < s0 + 50
                &&& !(sample is First)
                &&& sample matches LossSample::Interval { received: dr, sent: ds } ==> {
                    &&& s0 + ds == sent
                    &&& received >= r0 ==> r0 + dr == received
                    &&& received < r0 ==> dr == 0
                }
            }
            &&& sample is Merged ==> next == last
            &&& !(sample is Merged) ==> next == Some((received, sent))
        }),
{
}

impl View for LossMeter {
    type V = Option<(u64, u64)>;

    closed spec fn view(&self) -> Option<(u64, u64)> {
        self.last
    }
}

impl LossMeter {
    /// No report yet.
    pub fn new() -> (m: Self)
        ensures
            m@ is None,
    {
        LossMeter { last: None }
    }

    /// Take a report: datagrams received so far of those sent so far.
    pub fn update(&mut self, received: u64, sent: u64) -> (sample: LossSample)
        ensures
            (final(self)@, sample) == sampled(old(self)@, received, sent),
            match old(self)@ {
                None => {
                    &&& final(self)@ == Some((received, sent))
                    &&& sample == (LossSample::First { received, sent })
                },
                Some((r, s)) => if less(sent, s) < MIN_LOSS_INTERVAL {
                    &&& final(self)@ == old(self)@
                    &&& sample == LossSample::Merged
                } else {
                    &&& final(self)@ == Some((received, sent))
                    &&& sample == (LossSample::Interval {
                        received: less(received, r),
                        sent: less(sent, s),
                    })
                },
            },
    {
        match self.last {
            None => {
                self.last = Some((received, sent));
                LossSample::First { received, sent }
            },
            Some((r, s)) => {
                let dr: u64 = received.saturating_sub(r);
                let ds: u64 = sent.saturating_sub(s);
                if ds < MIN_LOSS_INTERVAL {
                    return LossSample::Merged;
                }
                self.last = Some((received, sent));
                LossSample::Interval { received: dr, sent: ds }
            },
        }
    }
}

/// Counting what is set: nothing has none, one more place counts for one
/// exactly if it is set, and setting a place counts for one exactly if it was
/// not set before. So the count is zero only where none is set, and is that of
/// all places only where all are.
pub proof fn law_the_count_is_of_what_is_set(s: Seq<bool>, b: bool, i: int)
    requires
        0 <= i < s.len(),
    ensures
        count_set(Seq::<bool>::empty()) == 0,
        count_set(s.push(b)) == count_set(s) + if b {
            1int
        } else {
            0
        },
        s[i] ==> count_set(s.update(i, true)) == count_set(s),
        !s[i] ==> count_set(s.update(i, true)) == count_set(s) + 1,
        count_set(s) == s.len() <==> forall|j: int| 0 <= j < s.len() ==> s[j],
        (forall|j: int| 0 <= j < s.len() ==> !s[j]) ==> count_set(s) == 0,
{
    assert(s.push(b).drop_last() =~= s);
    if s[i] {
        assert(s.update(i, true) =~= s);
    } else {
        lemma_count_update(s, i);
    }
    lemma_count_bound(s);
    if forall|j: int| 0 <= j < s.len() ==> !s[j] {
        lemma_count_none(s);
    }
}

/// What one number has over another: together with the other it makes the
/// first, and it is nothing where the first is not larger.
pub proof fn law_less_is_the_difference(a: u64, b: u64)
    ensures
        a >= b ==> b + less(a, b) == a,
        a < b ==> less(a, b) == 0,
{
}

/// The pending blocks are exactly those that are not acknowledged.
pub proof fn law_pending_is_what_is_unacked(acked: Seq<bool>, b: u32)
    requires
        acked.len() <= u32::MAX,
    ensures
        unset(acked, acked.len()).contains(b) <==> b < acked.len() && !acked[b as int],
{
    lemma_unset_contains(acked, acked.len(), b);
}

/// The numbers that are not set are listed in increasing order, each once.
pub proof fn law_unset_increases(s: Seq<bool>, n: nat)
    requires
        n <= s.len(),
        n <= u32::MAX,
    ensures
        forall|i: int| 0 <= i < unset(s, n).len() ==> #[trigger] unset(s, n)[i] < n,
        forall|i: int, j: int|
            0 <= i < j < unset(s, n).len() ==> #[trigger] unset(s, n)[i] < #[trigger] unset(
                s,
                n,
            )[j],
    decreases n,
{
    if n > 0 {
        let m = (n - 1) as nat;
        law_unset_increases(s, m);
        let u = unset(s, m);
        let w = unset(s, n);
        assert(forall|i: int| 0 <= i < u.len() ==> w[i] == u[i]);
    }
}

proof fn lemma_unset_contains(s: Seq<bool>, n: nat, b: u32)
    requires
        n <= s.len() <= u32::MAX,
    ensures
        unset(s, n).contains(b) <==> b < n && !s[b as int],
    decreases n,
{
    if n > 0 {
        let m = (n - 1) as nat;
        lemma_unset_contains(s, m, b);
        if !s[m as int] {
            let u = unset(s, m);
            let w = unset(s, n);
            if b == m {
                assert(w[w.len() - 1] == b);
            } else if u.contains(b) {
                let i = choose|i: int| 0 <= i < u.len() && u[i] == b;
                assert(w[i] == b);
            } else if w.contains(b) {
                let i = choose|i: int| 0 <= i < w.len() && w[i] == b;
                assert(u[i] == b);
            }
        }
    }
}

/// Each frame of the receiver is heard for what it is, and carries over what it
/// says; one that has no place after the handshake closes the connection.
pub proof fn law_frames_are_heard_for_what_they_are(frame: Frame, fb: Feedback)
    requires
        heard_as(frame, fb),
    ensures
        frame matches Frame::BlockDecoded { index } ==> fb == Feedback::Decoded(index),
        frame matches Frame::Progress { pkts, span, t_ms } ==> fb == (Feedback::Progress {
            pkts,
            span,
            t_ms,
        }),
        frame matches Frame::Done { ok, error } ==> fb == (Feedback::Done { ok, error }),
        frame is Hello || frame is HelloAck || frame is Manifest || frame is ManifestAck ==> (
        fb matches Feedback::Closed(why) && why@ == "unexpected frame "@ + frame.shown()),
{
}

/// The sender goes on exactly where the receiver answers as it should: with its
/// port, and then with its consent. Any other frame is a protocol error.
pub proof fn law_only_the_right_answers_go_on(
    frame: Frame,
    port: Result<u16, Error>,
    end: Result<(), Error>,
)
    requires
        answered(frame, port),
        agreed(frame, end),
    ensures
        port is Ok <==> frame is HelloAck,
        frame matches Frame::HelloAck { udp_port } ==> port == Ok::<u16, Error>(udp_port),
        end is Ok <==> frame is ManifestAck,
        port matches Err(e) ==> e is Protocol,
        end matches Err(e) ==> e is Protocol,
{
}

/// A manifest says the layout's sizes and block count, the name and the digest.
pub proof fn law_a_manifest_says_the_layout(file_name: String, sha256: String, layout: Layout)
    ensures
        manifest_of(file_name, sha256, layout) matches Frame::Manifest {
            file_name: n,
            file_size,
            sha256: d,
            block_size,
            symbol_size,
            num_blocks,
        } && n == file_name && d == sha256 && file_size == layout.file_size && block_size
            == layout.block_size && symbol_size == layout.symbol_size && num_blocks
            == layout.num_blocks,
{
}

} // verus!
