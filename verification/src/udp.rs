//! How batches are cut into datagrams.
//!
//! One system call hands the kernel a buffer of up to 64 datagrams of equal
//! size, of which the last may be shorter; on the way in the kernel hands
//! back such buffers with the size that they were built from. Without kernel
//! support the same cuts are made here.

use vstd::prelude::*;
use crate::blocks::{ceil_div, lemma_ceil_div};

verus! {

/// Kernel limit on the datagrams in one buffer.
pub const MAX_GSO_SEGMENTS: usize = 64;

/// A buffer must stay under the IP datagram size; this leaves room for
/// headers.
pub const MAX_GSO_BYTES: usize = 65000;

/// Datagrams of `seg` bytes that one batch may hold.
pub open spec fn batch_room(seg: nat) -> nat {
    let n = MAX_GSO_BYTES as nat / seg;
    if n < 1 {
        1
    } else if n > MAX_GSO_SEGMENTS {
        MAX_GSO_SEGMENTS as nat
    } else {
        n
    }
}

/// Datagrams of `seg` bytes that one batch may hold: as many as the limits
/// allow, and one in any case.
pub fn max_segments(seg: usize) -> (n: usize)
    requires
        seg > 0,
    ensures
        n == batch_room(seg as nat),
        1 <= n <= MAX_GSO_SEGMENTS,
{
    let n: usize = MAX_GSO_BYTES / seg;
    if n < 1 {
        1
    } else if n > MAX_GSO_SEGMENTS {
        MAX_GSO_SEGMENTS
    } else {
        n
    }
}

/// Where datagram `i` of a buffer of `len` bytes begins and ends.
pub open spec fn cut(len: nat, seg: nat, i: int) -> (int, int) {
    (
        i * seg,
        if i * seg + seg <= len {
            i * seg + seg
        } else {
            len as int
        },
    )
}

/// The datagrams of a buffer of `len` bytes, at most `limit` of them: where
/// each begins and ends. All have `seg` bytes but the last, which may be
/// shorter.
pub fn cuts(len: usize, seg: usize, limit: usize) -> (r: Vec<(usize, usize)>)
    requires
        seg > 0,
    ensures
        r@.len() == if ceil_div(len as nat, seg as nat) < limit {
            ceil_div(len as nat, seg as nat)
        } else {
            limit as nat
        },
        forall|i: int|
            0 <= i < r@.len() ==> ((#[trigger] r@[i]).0 as int, r@[i].1 as int) == cut(
                len as nat,
                seg as nat,
                i,
            ),
{
    let mut r: Vec<(usize, usize)> = Vec::new();
    let mut off: usize = 0;
    proof {
        lemma_ceil_div(len as nat, seg as nat);
        assert(0 * seg == 0) by (nonlinear_arith);
    }
    while off < len && r.len() < limit
        invariant
            seg > 0,
            r@.len() <= limit,
            off <= len,
            off < len ==> off == r@.len() * seg,
            off == len ==> r@.len() == ceil_div(len as nat, seg as nat),
            off < len ==> r@.len() < ceil_div(len as nat, seg as nat),
            forall|i: int|
                0 <= i < r@.len() ==> ((#[trigger] r@[i]).0 as int, r@[i].1 as int) == cut(
                    len as nat,
                    seg as nat,
                    i,
                ),
        decreases len - off,
    {
        let ghost n = r@.len();
        let ghost q = ceil_div(len as nat, seg as nat);
        let end: usize = if len - off < seg {
            len
        } else {
            off + seg
        };
        proof {
            lemma_ceil_div(len as nat, seg as nat);
            assert((n + 1) * seg == n * seg + seg) by (nonlinear_arith);
            if end == len {
                assert(n + 1 >= q) by (nonlinear_arith)
                    requires
                        len <= n * seg + seg,
                        seg * q < len + seg,
                        seg > 0,
                ;
            } else {
                assert(n + 1 < q) by (nonlinear_arith)
                    requires
                        n * seg + seg < len,
                        len <= seg * q,
                        seg > 0,
                ;
            }
        }
        r.push((off, end));
        off = end;
    }
    r
}

/// The cuts of a buffer cover it without gap or overlap.
pub proof fn law_cuts_partition_the_buffer(len: nat, seg: nat)
    requires
        seg > 0,
        len > 0,
    ensures
        cut(len, seg, 0).0 == 0,
        forall|i: int|
            0 <= i < ceil_div(len, seg) - 1 ==> (#[trigger] cut(len, seg, i)).1 == cut(
                len,
                seg,
                i + 1,
            ).0 && cut(len, seg, i).1 - cut(len, seg, i).0 == seg,
        cut(len, seg, ceil_div(len, seg) - 1).1 == len,
        0 < len - cut(len, seg, ceil_div(len, seg) - 1).0 <= seg,
{
    let q = ceil_div(len, seg) as int;
    lemma_ceil_div(len, seg);
    assert(0 * seg == 0) by (nonlinear_arith);
    assert forall|i: int| 0 <= i < q - 1 implies (#[trigger] cut(len, seg, i)).1 == cut(
        len,
        seg,
        i + 1,
    ).0 && cut(len, seg, i).1 - cut(len, seg, i).0 == seg by {
        assert(i * seg + seg == (i + 1) * seg) by (nonlinear_arith);
        assert((i + 1) * seg + seg <= seg * q) by (nonlinear_arith)
            requires
                i + 1 <= q - 1,
                seg > 0,
        ;
    }
    assert((q - 1) * seg == seg * q - seg) by (nonlinear_arith);
}

/// A batch that holds no more datagrams than it may, of a size that the
/// kernel takes at all, stays under the kernel's limit.
pub proof fn law_batches_stay_under_the_limit(seg: nat, count: nat)
    requires
        0 < seg <= MAX_GSO_BYTES,
        count <= batch_room(seg),
    ensures
        count * seg <= MAX_GSO_BYTES,
        count <= MAX_GSO_SEGMENTS,
{
    let n = MAX_GSO_BYTES as nat / seg;
    vstd::arithmetic::div_mod::lemma_fundamental_div_mod(MAX_GSO_BYTES as int, seg as int);
    assert(1 <= n) by (nonlinear_arith)
        requires
            MAX_GSO_BYTES == seg * n + MAX_GSO_BYTES as int % seg as int,
            (MAX_GSO_BYTES as int % seg as int) < seg,
            seg <= MAX_GSO_BYTES,
            seg > 0,
    ;
    assert(count * seg <= MAX_GSO_BYTES) by (nonlinear_arith)
        requires
            count <= n,
            MAX_GSO_BYTES == seg * n + MAX_GSO_BYTES as int % seg as int,
            (MAX_GSO_BYTES as int % seg as int) >= 0,
            seg > 0,
    ;
}

/// The first of the sizes that is of use.
pub open spec fn first_positive(sizes: Seq<i32>) -> Option<i32>
    decreases sizes.len(),
{
    if sizes.len() == 0 {
        None
    } else if sizes[0] > 0 {
        Some(sizes[0])
    } else {
        first_positive(sizes.drop_first())
    }
}

/// The size of the datagrams in a received buffer of `len` bytes: the first
/// of use that the kernel announced, or the whole buffer where there is none.
pub fn received_segment(announced: &[i32], len: usize) -> (seg: usize)
    ensures
        match first_positive(announced@) {
            Some(n) => seg == n,
            None => seg == if len > 0 {
                len
            } else {
                1
            },
        },
        seg > 0,
{
    let mut i: usize = 0;
    assert(announced@.subrange(0, announced@.len() as int) =~= announced@);
    while i < announced.len()
        invariant
            i <= announced@.len(),
            first_positive(announced@) == first_positive(
                announced@.subrange(i as int, announced@.len() as int),
            ),
        decreases announced@.len() - i,
    {
        let ghost rest = announced@.subrange(i as int, announced@.len() as int);
        let n: i32 = announced[i];
        assert(rest[0] == n);
        if n > 0 {
            return n as usize;
        }
        assert(rest.drop_first() =~= announced@.subrange(i + 1, announced@.len() as int));
        i = i + 1;
    }
    if len > 0 {
        len
    } else {
        1
    }
}

/// A batch may hold as many datagrams as fit in 65000 bytes, but no more than
/// 64, and one in any case.
pub proof fn law_a_batch_holds_what_fits(seg: nat)
    requires
        seg > 0,
    ensures
        1 <= batch_room(seg) <= 64,
        batch_room(seg) > 1 ==> batch_room(seg) * seg <= 65000,
        batch_room(seg) == 64 || (batch_room(seg) + 1) * seg > 65000,
{
    let n = 65000nat / seg;
    vstd::arithmetic::div_mod::lemma_fundamental_div_mod(65000, seg as int);
    assert(n * seg <= 65000 && (n + 1) * seg > 65000) by (nonlinear_arith)
        requires
            65000 == seg * n + 65000int % seg as int,
            0 <= 65000int % seg as int,
            (65000int % seg as int) < seg,
    ;
    let r = batch_room(seg);
    if r <= n {
        assert(r * seg <= n * seg) by (nonlinear_arith)
            requires
                r <= n,
        ;
    } else {
        assert((r + 1) * seg >= (n + 1) * seg) by (nonlinear_arith)
            requires
                r >= n,
        ;
    }
}

/// The size that counts is the first that is above zero, if any is.
pub proof fn law_the_first_size_of_use_counts(sizes: Seq<i32>)
    ensures
        first_positive(sizes) is Some <==> exists|i: int|
            0 <= i < sizes.len() && #[trigger] sizes[i] > 0,
        first_positive(sizes) matches Some(n) ==> exists|i: int|
            0 <= i < sizes.len() && #[trigger] sizes[i] == n && n > 0 && forall|j: int|
                0 <= j < i ==> #[trigger] sizes[j] <= 0,
    decreases sizes.len(),
{
    if sizes.len() > 0 {
        if sizes[0] <= 0 {
            let rest = sizes.drop_first();
            law_the_first_size_of_use_counts(rest);
            if let Some(n) = first_positive(rest) {
                let i = choose|i: int|
                    0 <= i < rest.len() && #[trigger] rest[i] == n && n > 0 && forall|j: int|
                        0 <= j < i ==> #[trigger] rest[j] <= 0;
                assert(sizes[i + 1] == n);
                assert forall|j: int| 0 <= j < i + 1 implies #[trigger] sizes[j] <= 0 by {
                    if j > 0 {
                        assert(rest[j - 1] == sizes[j]);
                    }
                }
            } else if exists|i: int| 0 <= i < sizes.len() && #[trigger] sizes[i] > 0 {
                let i = choose|i: int| 0 <= i < sizes.len() && #[trigger] sizes[i] > 0;
                assert(rest[i - 1] > 0);
            }
        } else {
            assert(sizes[0] > 0);
        }
    }
}

/// A datagram of a buffer begins where so many whole ones end, and ends one
/// size later, or with the buffer.
pub proof fn law_datagrams_follow_each_other(len: nat, seg: nat, i: int)
    requires
        0 <= i,
        i * seg <= len,
    ensures
        cut(len, seg, i).0 == i * seg,
        cut(len, seg, i).1 <= len,
        (i + 1) * seg <= len ==> cut(len, seg, i).1 == (i + 1) * seg,
        (i + 1) * seg > len ==> cut(len, seg, i).1 == len,
{
    assert((i + 1) * seg == i * seg + seg) by (nonlinear_arith);
}

} // verus!
