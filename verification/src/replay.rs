//! Sliding anti-replay window over 64-bit sequence numbers (RFC 6479 style).

use vstd::prelude::*;

verus! {

/// Width of the window in sequence numbers.
pub const REPLAY_WINDOW_BITS: u64 = 4096;

/// The same width in bitmap words.
pub const REPLAY_WINDOW_WORDS: usize = 64;

/// `s` is one of the `REPLAY_WINDOW_BITS` numbers up to `highest`.
pub open spec fn in_window(highest: u64, s: u64) -> bool {
    s <= highest && highest - s < REPLAY_WINDOW_BITS
}

/// The number up to `highest` whose slot `seq` shares. Inside the window that
/// is `seq` itself.
pub open spec fn resident(highest: u64, seq: u64) -> u64 {
    (highest - (highest - seq) % (REPLAY_WINDOW_BITS as int)) as u64
}

/// What the window stands for: the highest number committed, and the numbers
/// in the window below it that were committed.
#[verifier::ext_equal]
pub struct WindowView {
    pub highest: Option<u64>,
    pub seen: Set<u64>,
}

impl WindowView {
    /// Nothing committed yet.
    pub open spec fn empty() -> WindowView {
        WindowView { highest: None, seen: Set::empty() }
    }

    /// `seq` is neither a replay nor behind the window.
    pub open spec fn accepts(self, seq: u64) -> bool {
        match self.highest {
            None => true,
            Some(h) => seq > h || (in_window(h, seq) && !self.seen.contains(seq)),
        }
    }

    /// The highest number after `seq` is committed.
    pub open spec fn raised(self, seq: u64) -> u64 {
        match self.highest {
            None => seq,
            Some(h) => if seq > h {
                seq
            } else {
                h
            },
        }
    }

    /// The window slides up to `seq` if that is ahead, forgets what fell out,
    /// and marks `seq`.
    pub open spec fn commit(self, seq: u64) -> WindowView {
        let h = self.raised(seq);
        WindowView {
            highest: Some(h),
            seen: Set::new(
                |s: u64| (self.seen.contains(s) && in_window(h, s)) || s == resident(h, seq),
            ),
        }
    }

    /// A run of commits, in order.
    pub open spec fn commit_all(self, seqs: Seq<u64>) -> WindowView
        decreases seqs.len(),
    {
        if seqs.len() == 0 {
            self
        } else {
            self.commit_all(seqs.drop_last()).commit(seqs.last())
        }
    }
}

/// Bit `i` of `w`.
pub open spec fn bit(w: u64, i: u64) -> bool {
    w & (1u64 << i) != 0
}

proof fn lemma_bit_set(w: u64, i: u64, j: u64)
    requires
        i < 64,
        j < 64,
    ensures
        bit(w | (1u64 << i), j) == (bit(w, j) || i == j),
{
    assert((((w | (1u64 << i)) & (1u64 << j)) != 0) == ((w & (1u64 << j)) != 0 || i == j))
        by (bit_vector)
        requires
            i < 64,
            j < 64,
    ;
}

proof fn lemma_bit_clear(w: u64, i: u64, j: u64)
    requires
        i < 64,
        j < 64,
    ensures
        bit(w & !(1u64 << i), j) == (bit(w, j) && i != j),
{
    assert((((w & !(1u64 << i)) & (1u64 << j)) != 0) == ((w & (1u64 << j)) != 0 && i != j))
        by (bit_vector)
        requires
            i < 64,
            j < 64,
    ;
}

proof fn lemma_bit_zero(j: u64)
    ensures
        !bit(0, j),
{
    assert(0u64 & (1u64 << j) == 0) by (bit_vector);
}

/// RFC 6479-style sliding anti-replay window.
pub struct ReplayWindow {
    bitmap: [u64; REPLAY_WINDOW_WORDS],
    highest: u64,
    primed: bool,
}

impl View for ReplayWindow {
    type V = WindowView;

    closed spec fn view(&self) -> WindowView {
        WindowView {
            highest: if self.primed {
                Some(self.highest)
            } else {
                None
            },
            seen: Set::new(
                |s: u64| self.primed && in_window(self.highest, s) && self.marked(s % 4096),
            ),
        }
    }
}

impl ReplayWindow {
    /// Bitmap slot `slot` is set.
    spec fn marked(self, slot: u64) -> bool {
        bit(self.bitmap@[slot as int / 64], (slot % 64) as u64)
    }

    /// A window that has seen nothing.
    pub fn new() -> (w: Self)
        ensures
            w@ == WindowView::empty(),
    {
        let w = Self { bitmap: [0u64; REPLAY_WINDOW_WORDS], highest: 0, primed: false };
        assert(w@.seen =~= Set::<u64>::empty());
        w
    }

    /// Whether `seq` would be accepted: not a replay, not behind the window.
    pub fn would_accept(&self, seq: u64) -> (r: bool)
        ensures
            r == self@.accepts(seq),
    {
        if !self.primed || seq > self.highest {
            return true;
        }
        let behind: u64 = self.highest - seq;
        if behind >= REPLAY_WINDOW_BITS {
            return false;
        }
        !self.is_set(seq)
    }

    /// Record `seq` as delivered.
    pub fn commit(&mut self, seq: u64)
        ensures
            final(self)@ == old(self)@.commit(seq),
    {
        let ghost before = *self;
        if !self.primed {
            self.primed = true;
            self.highest = seq;
            let advance: u64 = if seq < REPLAY_WINDOW_BITS {
                seq + 1
            } else {
                REPLAY_WINDOW_BITS
            };
            self.clear_range_for_advance(seq, advance);
            self.set(seq);
            assert(self@.seen =~= before@.commit(seq).seen) by {
                assert forall|s: u64| #[trigger] self@.seen.contains(s) == before@.commit(
                    seq,
                ).seen.contains(s) by {
                    if in_window(seq, s) {
                        lemma_same_slot(seq, s, seq);
                    }
                }
            }
            return ;
        }
        if seq > self.highest {
            let advance: u64 = seq - self.highest;
            let advance: u64 = if advance < REPLAY_WINDOW_BITS {
                advance
            } else {
                REPLAY_WINDOW_BITS
            };
            self.clear_range_for_advance(seq, advance);
            let ghost mid = *self;
            self.highest = seq;
            assert forall|s: u64| in_window(seq, s) implies #[trigger] self.marked(s % 4096) == (s
                <= before.highest && before.marked(s % 4096)) by {
                assert(self.marked(s % 4096) == mid.marked(s % 4096));
            }
        }
        let ghost h = self.highest;
        let ghost cleared = *self;
        self.set(seq);
        assert(self@.seen =~= before@.commit(seq).seen) by {
            let r = resident(h, seq);
            lemma_resident(h, seq);
            assert forall|s: u64| #[trigger] self@.seen.contains(s) == before@.commit(
                seq,
            ).seen.contains(s) by {
                if in_window(h, s) {
                    lemma_same_slot(h, s, r);
                    assert(self.marked(s % 4096) == (cleared.marked(s % 4096) || s == r));
                    assert(cleared.marked(s % 4096) == (s <= before.highest && before.marked(
                        s % 4096,
                    )));
                }
            }
        }
    }

    /// The highest number committed so far.
    pub fn highest_seq(&self) -> (r: Option<u64>)
        ensures
            r == self@.highest,
    {
        if self.primed {
            Some(self.highest)
        } else {
            None
        }
    }

    /// Clear the slots of the `advance` numbers up to `new_highest`.
    fn clear_range_for_advance(&mut self, new_highest: u64, advance: u64)
        requires
            advance <= new_highest + 1,
        ensures
            final(self).highest == old(self).highest,
            final(self).primed == old(self).primed,
            forall|s: u64|
                in_window(new_highest, s) ==> #[trigger] final(self).marked(s % 4096) == (
                new_highest - s >= advance && old(self).marked(s % 4096)),
    {
        if advance >= REPLAY_WINDOW_BITS {
            self.bitmap = [0u64; REPLAY_WINDOW_WORDS];
            proof {
                assert forall|s: u64| !#[trigger] self.marked(s % 4096) by {
                    lemma_bit_zero(((s % 4096) % 64) as u64);
                }
            }
            return ;
        }
        let ghost before = *self;
        let mut k: u64 = 0;
        while k < advance
            invariant
                k <= advance < REPLAY_WINDOW_BITS,
                advance <= new_highest + 1,
                self.highest == before.highest,
                self.primed == before.primed,
                forall|s: u64|
                    in_window(new_highest, s) ==> #[trigger] self.marked(s % 4096) == (new_highest
                        - s >= k && before.marked(s % 4096)),
            decreases advance - k,
        {
            let ghost prev = *self;
            self.clear(new_highest - k);
            proof {
                assert forall|s: u64| in_window(new_highest, s) implies #[trigger] self.marked(
                    s % 4096,
                ) == (new_highest - s >= k + 1 && before.marked(s % 4096)) by {
                    lemma_same_slot(new_highest, s, (new_highest - k) as u64);
                    assert(prev.marked(s % 4096) == (new_highest - s >= k && before.marked(
                        s % 4096,
                    )));
                }
            }
            k = k + 1;
        }
    }

    /// Bitmap word and mask of `seq`.
    fn slot(seq: u64) -> (r: (usize, u64))
        ensures
            r.0 == (seq % 4096) as int / 64,
            r.0 < REPLAY_WINDOW_WORDS,
            r.1 == 1u64 << ((seq % 4096) % 64) as u64,
    {
        let b: u64 = seq % REPLAY_WINDOW_BITS;
        ((b / 64) as usize, 1u64 << (b % 64))
    }

    fn is_set(&self, seq: u64) -> (r: bool)
        ensures
            r == self.marked(seq % 4096),
    {
        let (word, mask) = Self::slot(seq);
        self.bitmap[word] & mask != 0
    }

    fn set(&mut self, seq: u64)
        ensures
            final(self).highest == old(self).highest,
            final(self).primed == old(self).primed,
            forall|t: u64|
                t < 4096 ==> #[trigger] final(self).marked(t) == (old(self).marked(t) || t == seq
                    % 4096),
    {
        let (word, mask) = Self::slot(seq);
        let ghost before = *self;
        self.bitmap[word] = self.bitmap[word] | mask;
        proof {
            assert forall|t: u64| t < 4096 implies #[trigger] self.marked(t) == (before.marked(t)
                || t == seq % 4096) by {
                if t as int / 64 == word {
                    lemma_bit_set(
                        before.bitmap@[word as int],
                        ((seq % 4096) % 64) as u64,
                        (t % 64) as u64,
                    );
                }
            }
        }
    }

    fn clear(&mut self, seq: u64)
        ensures
            final(self).highest == old(self).highest,
            final(self).primed == old(self).primed,
            forall|t: u64|
                t < 4096 ==> #[trigger] final(self).marked(t) == (old(self).marked(t) && t != seq
                    % 4096),
    {
        let (word, mask) = Self::slot(seq);
        let ghost before = *self;
        self.bitmap[word] = self.bitmap[word] & !mask;
        proof {
            assert forall|t: u64| t < 4096 implies #[trigger] self.marked(t) == (before.marked(t)
                && t != seq % 4096) by {
                if t as int / 64 == word {
                    lemma_bit_clear(
                        before.bitmap@[word as int],
                        ((seq % 4096) % 64) as u64,
                        (t % 64) as u64,
                    );
                }
            }
        }
    }
}

/// Within one window, a slot belongs to one number.
proof fn lemma_same_slot(highest: u64, a: u64, b: u64)
    requires
        in_window(highest, a),
        in_window(highest, b),
    ensures
        a % 4096 == b % 4096 <==> a == b,
{
    if a % 4096 == b % 4096 {
        assert(a == 4096 * (a / 4096) + a % 4096);
        assert(b == 4096 * (b / 4096) + b % 4096);
    }
}

/// The resident number lies in the window and shares the slot.
proof fn lemma_resident(highest: u64, seq: u64)
    requires
        seq <= highest,
    ensures
        in_window(highest, resident(highest, seq)),
        resident(highest, seq) % 4096 == seq % 4096,
        in_window(highest, seq) ==> resident(highest, seq) == seq,
{
    let d = highest - seq;
    let q = d / 4096;
    assert(d == 4096 * q + d % 4096);
    assert(resident(highest, seq) == seq + 4096 * q);
    assert((seq + 4096 * q) % 4096 == seq as int % 4096) by (nonlinear_arith);
}

/// `seq` is delivered for good in `w`: at or below the highest number, and
/// marked or out of the window.
pub open spec fn spent(w: WindowView, seq: u64) -> bool {
    match w.highest {
        None => false,
        Some(h) => seq <= h && (in_window(h, seq) ==> w.seen.contains(seq)),
    }
}

/// No number is delivered twice: once `seq` is committed, no later commits,
/// of whatever numbers, make the window accept it again.
pub proof fn law_no_second_delivery(w: WindowView, seq: u64, later: Seq<u64>)
    ensures
        !w.commit(seq).commit_all(later).accepts(seq),
{
    lemma_stays_spent(w, seq, later);
}

proof fn lemma_stays_spent(w: WindowView, seq: u64, later: Seq<u64>)
    ensures
        spent(w.commit(seq).commit_all(later), seq),
    decreases later.len(),
{
    if later.len() == 0 {
        lemma_resident(w.raised(seq), seq);
    } else {
        lemma_stays_spent(w, seq, later.drop_last());
    }
}

/// What is left behind stays behind: a number that lies a window's width or
/// more below a committed one is refused, whatever is committed later.
pub proof fn law_left_behind_for_good(w: WindowView, ahead: u64, seq: u64, later: Seq<u64>)
    requires
        seq <= ahead,
        ahead - seq >= REPLAY_WINDOW_BITS,
    ensures
        !w.commit(ahead).commit_all(later).accepts(seq),
{
    lemma_stays_behind(w, ahead, seq, later);
}

proof fn lemma_stays_behind(w: WindowView, ahead: u64, seq: u64, later: Seq<u64>)
    requires
        seq <= ahead,
        ahead - seq >= REPLAY_WINDOW_BITS,
    ensures
        spent(w.commit(ahead).commit_all(later), seq),
        w.commit(ahead).commit_all(later).highest matches Some(h) && h >= ahead,
    decreases later.len(),
{
    if later.len() > 0 {
        lemma_stays_behind(w, ahead, seq, later.drop_last());
    }
}

/// The numbers that a receiver delivered, in order: each was accepted by the
/// window that those before it had left.
pub open spec fn delivered(seqs: Seq<u64>) -> bool
    decreases seqs.len(),
{
    seqs.len() == 0 || (delivered(seqs.drop_last()) && WindowView::empty().commit_all(
        seqs.drop_last(),
    ).accepts(seqs.last()))
}

/// What the window accepts, said of the whole history: after any run of
/// deliveries, exactly the numbers that were not delivered and lie less than
/// a window's width behind each one that was.
pub proof fn law_window_is_history(seqs: Seq<u64>, seq: u64)
    requires
        delivered(seqs),
    ensures
        WindowView::empty().commit_all(seqs).accepts(seq) <==> {
            &&& !seqs.contains(seq)
            &&& forall|i: int| 0 <= i < seqs.len() ==> #[trigger] seqs[i] < seq + REPLAY_WINDOW_BITS
        },
{
    lemma_history(seqs);
    let w = WindowView::empty().commit_all(seqs);
    if seqs.len() > 0 {
        let h = w.highest->0;
        if seqs.contains(seq) {
            assert(seq <= h);
        }
        if forall|i: int| 0 <= i < seqs.len() ==> #[trigger] seqs[i] < seq + REPLAY_WINDOW_BITS {
            let i = choose|i: int| 0 <= i < seqs.len() && seqs[i] == h;
            assert(seqs[i] < seq + REPLAY_WINDOW_BITS);
        }
    }
}

/// A run of deliveries holds no number twice, and not more numbers than the
/// span up to the highest: what is missing from the span was lost or late.
pub proof fn law_deliveries_fit_the_span(seqs: Seq<u64>)
    requires
        delivered(seqs),
        seqs.len() > 0,
    ensures
        seqs.no_duplicates(),
        WindowView::empty().commit_all(seqs).highest matches Some(h) && seqs.len() <= h + 1,
{
    lemma_history(seqs);
    lemma_delivered_once(seqs);
    let h = WindowView::empty().commit_all(seqs).highest->0;
    lemma_distinct_below(seqs, h as nat + 1);
}

proof fn lemma_delivered_once(seqs: Seq<u64>)
    requires
        delivered(seqs),
    ensures
        seqs.no_duplicates(),
    decreases seqs.len(),
{
    if seqs.len() > 0 {
        let init = seqs.drop_last();
        lemma_delivered_once(init);
        law_window_is_history(init, seqs.last());
        assert forall|i: int, j: int|
            0 <= i < seqs.len() && 0 <= j < seqs.len() && i != j implies seqs[i] != seqs[j] by {
            if i < init.len() && j < init.len() {
                assert(init[i] != init[j]);
            } else if i < init.len() {
                assert(init.contains(init[i]));
            } else {
                assert(init.contains(init[j]));
            }
        }
    }
}

/// Distinct numbers below `n` are at most `n`.
proof fn lemma_distinct_below(seqs: Seq<u64>, n: nat)
    requires
        n <= u64::MAX + 1,
        seqs.no_duplicates(),
        forall|i: int| 0 <= i < seqs.len() ==> #[trigger] seqs[i] < n,
    ensures
        seqs.len() <= n,
    decreases n,
{
    if seqs.len() > 0 {
        assert(seqs[0] < n);
        let top = (n - 1) as u64;
        if seqs.contains(top) {
            let k = choose|k: int| 0 <= k < seqs.len() && seqs[k] == top;
            let rest = seqs.remove(k);
            assert forall|i: int| 0 <= i < rest.len() implies #[trigger] rest[i] < n - 1 by {
                let j = if i < k {
                    i
                } else {
                    i + 1
                };
                assert(rest[i] == seqs[j]);
                assert(seqs[j] != seqs[k]);
            }
            assert forall|i: int, j: int|
                0 <= i < rest.len() && 0 <= j < rest.len() && i != j implies rest[i] != rest[j] by {
                let a = if i < k {
                    i
                } else {
                    i + 1
                };
                let b = if j < k {
                    j
                } else {
                    j + 1
                };
                assert(seqs[a] != seqs[b]);
            }
            lemma_distinct_below(rest, (n - 1) as nat);
        } else {
            assert forall|i: int| 0 <= i < seqs.len() implies #[trigger] seqs[i] < n - 1 by {
                assert(seqs.contains(seqs[i]));
            }
            lemma_distinct_below(seqs, (n - 1) as nat);
        }
    }
}

/// The view that a run of deliveries leaves.
proof fn lemma_history(seqs: Seq<u64>)
    requires
        delivered(seqs),
    ensures
        seqs.len() == 0 ==> WindowView::empty().commit_all(seqs) == WindowView::empty(),
        seqs.len() > 0 ==> {
            let w = WindowView::empty().commit_all(seqs);
            &&& w.highest is Some
            &&& seqs.contains(w.highest->0)
            &&& forall|i: int| 0 <= i < seqs.len() ==> #[trigger] seqs[i] <= w.highest->0
            &&& forall|s: u64|
                #[trigger] w.seen.contains(s) <==> in_window(w.highest->0, s) && seqs.contains(s)
        },
    decreases seqs.len(),
{
    if seqs.len() > 0 {
        let init = seqs.drop_last();
        let last = seqs.last();
        lemma_history(init);
        let v = WindowView::empty().commit_all(init);
        let w = v.commit(last);
        let h = v.raised(last);
        assert(w == WindowView::empty().commit_all(seqs));
        lemma_resident(h, last);
        assert(seqs[seqs.len() - 1] == last);
        assert forall|s: u64| seqs.contains(s) <==> (init.contains(s) || s == last) by {
            if seqs.contains(s) {
                let i = choose|i: int| 0 <= i < seqs.len() && seqs[i] == s;
                if i < init.len() {
                    assert(init[i] == s);
                }
            }
            if init.contains(s) {
                let i = choose|i: int| 0 <= i < init.len() && init[i] == s;
                assert(seqs[i] == s);
            }
        }
        assert forall|i: int| 0 <= i < seqs.len() implies #[trigger] seqs[i] <= h by {
            if i < init.len() {
                assert(init[i] == seqs[i]);
            }
        }
        assert forall|s: u64|
            #[trigger] w.seen.contains(s) <==> in_window(h, s) && seqs.contains(s) by {
            if in_window(h, s) && init.contains(s) {
                let i = choose|i: int| 0 <= i < init.len() && init[i] == s;
                assert(init[i] <= v.highest->0);
            }
        }
    }
}

/// The window is 4096 numbers wide: after one delivery exactly the numbers
/// above it and the 4095 below it are accepted.
pub proof fn law_the_window_is_4096_wide(first: u64, seq: u64)
    ensures
        WindowView::empty().accepts(seq),
        WindowView::empty().commit(first).accepts(seq) <==> seq != first && first < seq + 4096,
{
    lemma_resident(first, first);
}

/// The highest number committed never falls, and rises to a number that is
/// committed above it.
pub proof fn law_the_highest_number_only_rises(w: WindowView, seq: u64)
    ensures
        w.commit(seq).highest matches Some(h) && h >= seq && (w.highest matches Some(g) ==> h >= g)
            && (h == seq || w.highest == Some(h)),
{
}

} // verus!
