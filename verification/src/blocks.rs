//! How a file splits into blocks, the same on both sides.
//!
//! Each block is a RaptorQ object of its own. Both sides take the codec's
//! parameters from the block's length and the symbol size, so that nothing
//! about the code travels but the manifest's sizes.

use std::ops::Range;
use vstd::arithmetic::div_mod::lemma_fundamental_div_mod;
use vstd::prelude::*;

verus! {

/// `a / b`, rounded up.
pub open spec fn ceil_div(a: nat, b: nat) -> nat {
    if a % b == 0 {
        a / b
    } else {
        a / b + 1
    }
}

/// `a / b`, rounded up.
pub fn div_ceil(a: u64, b: u64) -> (q: u64)
    requires
        b > 0,
    ensures
        q == ceil_div(a as nat, b as nat),
{
    if a % b == 0 {
        a / b
    } else {
        proof {
            lemma_fundamental_div_mod(a as int, b as int);
            assert(a / b < u64::MAX) by (nonlinear_arith)
                requires
                    b > 0,
                    a == b * (a / b) + a % b,
                    a % b > 0,
            ;
        }
        a / b + 1
    }
}

/// `ceil_div(a, b)` is the least number of `b`s that cover `a`.
pub proof fn lemma_ceil_div(a: nat, b: nat)
    requires
        b > 0,
    ensures
        a <= b * ceil_div(a, b),
        b * ceil_div(a, b) < a + b,
        a > 0 ==> ceil_div(a, b) > 0,
{
    lemma_fundamental_div_mod(a as int, b as int);
    let q = (a / b) as int;
    assert(b * (q + 1) == b * q + b) by (nonlinear_arith);
    assert(q >= 0) by (nonlinear_arith)
        requires
            a == b * q + a % b,
            a % b < b,
            b > 0,
    ;
    if a > 0 && q == 0 {
        assert(a % b == a) by (nonlinear_arith)
            requires
                a == b * q + a % b,
                q == 0,
        ;
    }
}

/// Parameters from which both sides configure the codec for one block.
#[derive(Debug, Clone, Copy, PartialEq, Eq, Structural)]
pub struct BlockInfo {
    /// Bytes in the block.
    pub transfer_length: u64,
    /// Symbol size in bytes.
    pub symbol_size: u16,
}

/// Static description of how a file splits into blocks.
#[derive(Debug, Clone, Copy, PartialEq, Eq, Structural)]
pub struct Layout {
    pub file_size: u64,
    pub block_size: u32,
    pub symbol_size: u16,
    pub num_blocks: u32,
}

impl Layout {
    /// The sizes are not zero and the block count is the one they give.
    pub open spec fn wf(self) -> bool {
        &&& self.file_size > 0
        &&& self.block_size > 0
        &&& self.symbol_size > 0
        &&& self.num_blocks == ceil_div(self.file_size as nat, self.block_size as nat)
    }

    /// First byte of block `index`.
    pub open spec fn start(self, index: int) -> int {
        index * self.block_size
    }

    /// First byte after block `index`.
    pub open spec fn end(self, index: int) -> int {
        if index * self.block_size + self.block_size <= self.file_size {
            index * self.block_size + self.block_size
        } else {
            self.file_size as int
        }
    }

    /// Bytes in block `index`.
    pub open spec fn len(self, index: int) -> int {
        self.end(index) - self.start(index)
    }

    /// Source symbols in block `index`.
    pub open spec fn symbols(self, index: int) -> nat {
        ceil_div(self.len(index) as nat, self.symbol_size as nat)
    }

    /// The bytes of block `index` within the file's.
    pub open spec fn block(self, data: Seq<u8>, index: int) -> Seq<u8> {
        data.subrange(self.start(index), self.end(index))
    }

    /// The layout of a file of `file_size` bytes.
    pub fn new(file_size: u64, block_size: u32, symbol_size: u16) -> (l: Self)
        requires
            file_size > 0,
            block_size > 0,
            symbol_size > 0,
            ceil_div(file_size as nat, block_size as nat) <= u32::MAX,
        ensures
            l.wf(),
            l.file_size == file_size,
            l.block_size == block_size,
            l.symbol_size == symbol_size,
    {
        let num_blocks: u32 = div_ceil(file_size, block_size as u64) as u32;
        Layout { file_size, block_size, symbol_size, num_blocks }
    }

    /// The layout of a file of `file_size` bytes, or `None` where a size is
    /// zero or the blocks are more than can be counted.
    pub fn checked(file_size: u64, block_size: u32, symbol_size: u16) -> (r: Option<Self>)
        ensures
            match r {
                Some(l) => {
                    &&& l.wf()
                    &&& l.file_size == file_size
                    &&& l.block_size == block_size
                    &&& l.symbol_size == symbol_size
                },
                None => file_size == 0 || block_size == 0 || symbol_size == 0 || ceil_div(
                    file_size as nat,
                    block_size as nat,
                ) > u32::MAX,
            },
    {
        if file_size == 0 || block_size == 0 || symbol_size == 0 {
            return None;
        }
        if div_ceil(file_size, block_size as u64) > u32::MAX as u64 {
            return None;
        }
        Some(Layout::new(file_size, block_size, symbol_size))
    }

    /// Byte range of block `index` within the file.
    pub fn range(&self, index: u32) -> (r: Range<u64>)
        requires
            self.wf(),
            index < self.num_blocks,
        ensures
            r.start == self.start(index as int),
            r.end == self.end(index as int),
            r.start < r.end <= self.file_size,
    {
        proof {
            self.lemma_bounds(index as int);
            assert(index * self.block_size < 0x1_0000_0000 * 0x1_0000_0000) by (nonlinear_arith)
                requires
                    0 <= index < 0x1_0000_0000,
                    0 <= self.block_size < 0x1_0000_0000,
            ;
        }
        let start: u64 = index as u64 * self.block_size as u64;
        let end: u64 = if self.file_size - start < self.block_size as u64 {
            self.file_size
        } else {
            start + self.block_size as u64
        };
        start..end
    }

    /// Length in bytes of block `index`.
    pub fn block_len(&self, index: u32) -> (n: u64)
        requires
            self.wf(),
            index < self.num_blocks,
        ensures
            n == self.len(index as int),
            0 < n <= self.block_size,
    {
        let r = self.range(index);
        r.end - r.start
    }

    /// Number of source symbols in block `index`.
    pub fn source_symbols(&self, index: u32) -> (k: u32)
        requires
            self.wf(),
            index < self.num_blocks,
        ensures
            k == self.symbols(index as int),
            0 < k,
    {
        let len: u64 = self.block_len(index);
        let k: u64 = div_ceil(len, self.symbol_size as u64);
        proof {
            let s = self.symbol_size as nat;
            lemma_ceil_div(len as nat, s);
            assert(k < 0x1_0000_0000) by (nonlinear_arith)
                requires
                    s * k < len + s,
                    len <= 0xFFFF_FFFF,
                    s >= 1,
            ;
        }
        k as u32
    }

    /// Codec parameters of block `index`.
    pub fn oti(&self, index: u32) -> (info: BlockInfo)
        requires
            self.wf(),
            index < self.num_blocks,
        ensures
            info.transfer_length == self.len(index as int),
            info.symbol_size == self.symbol_size,
    {
        BlockInfo { transfer_length: self.block_len(index), symbol_size: self.symbol_size }
    }

    /// Every block lies in the file and holds a byte or more, and no more
    /// than a block's size.
    pub proof fn lemma_bounds(self, index: int)
        requires
            self.wf(),
            0 <= index < self.num_blocks,
        ensures
            0 <= self.start(index) < self.end(index) <= self.file_size,
            self.len(index) <= self.block_size,
    {
        let b = self.block_size as int;
        let n = self.num_blocks as int;
        lemma_ceil_div(self.file_size as nat, self.block_size as nat);
        assert(b * n - b < self.file_size);
        assert(index * b <= (n - 1) * b) by (nonlinear_arith)
            requires
                index <= n - 1,
                b > 0,
        ;
        assert((n - 1) * b == b * n - b) by (nonlinear_arith);
        assert(0 <= index * b) by (nonlinear_arith)
            requires
                index >= 0,
                b > 0,
        ;
    }
}

/// The blocks of a file cover it without gap or overlap: the first starts at
/// zero, each starts where the one before ends, and the last ends with the
/// file. Only the last may be shorter than the block size.
pub proof fn law_blocks_partition_the_file(l: Layout)
    requires
        l.wf(),
    ensures
        l.start(0) == 0,
        forall|i: int|
            0 <= i < l.num_blocks - 1 ==> #[trigger] l.end(i) == l.start(i + 1) && l.len(i)
                == l.block_size,
        l.end(l.num_blocks - 1) == l.file_size,
        0 < l.len(l.num_blocks - 1) <= l.block_size,
{
    let b = l.block_size as int;
    let n = l.num_blocks as int;
    lemma_ceil_div(l.file_size as nat, l.block_size as nat);
    assert(b * n - b < l.file_size <= b * n);
    assert forall|i: int| 0 <= i < n - 1 implies #[trigger] l.end(i) == l.start(i + 1) && l.len(i)
        == b by {
        assert(i * b + b == (i + 1) * b) by (nonlinear_arith);
        assert((i + 1) * b <= (n - 1) * b) by (nonlinear_arith)
            requires
                i + 1 <= n - 1,
                b > 0,
        ;
        assert((n - 1) * b == b * n - b) by (nonlinear_arith);
    }
    assert((n - 1) * b + b == b * n) by (nonlinear_arith);
    l.lemma_bounds(n - 1);
}

/// The blocks of a file, put one after the other.
pub open spec fn joined(l: Layout, data: Seq<u8>, count: nat) -> Seq<u8>
    decreases count,
{
    if count == 0 {
        Seq::empty()
    } else {
        joined(l, data, (count - 1) as nat) + l.block(data, count - 1)
    }
}

/// Putting all blocks one after the other gives the file back.
pub proof fn law_blocks_join_to_the_file(l: Layout, data: Seq<u8>)
    requires
        l.wf(),
        data.len() == l.file_size,
    ensures
        joined(l, data, l.num_blocks as nat) == data,
{
    lemma_ceil_div(l.file_size as nat, l.block_size as nat);
    lemma_joined_prefix(l, data, l.num_blocks as nat);
    law_blocks_partition_the_file(l);
    assert(data.subrange(0, data.len() as int) =~= data);
}

proof fn lemma_joined_prefix(l: Layout, data: Seq<u8>, count: nat)
    requires
        l.wf(),
        data.len() == l.file_size,
        0 < count <= l.num_blocks,
    ensures
        joined(l, data, count) == data.subrange(0, l.end(count - 1)),
    decreases count,
{
    law_blocks_partition_the_file(l);
    l.lemma_bounds(count - 1);
    if count == 1 {
        assert(joined(l, data, 0) =~= Seq::<u8>::empty());
        assert(joined(l, data, 1) =~= data.subrange(0, l.end(0)));
    } else {
        lemma_joined_prefix(l, data, (count - 1) as nat);
        assert(l.end(count - 2) == l.start((count - 2) + 1));
        l.lemma_bounds(count - 2);
        assert(data.subrange(0, l.start(count - 1)) + data.subrange(
            l.start(count - 1),
            l.end(count - 1),
        ) =~= data.subrange(0, l.end(count - 1)));
    }
}

/// `out` after the bytes `data` were written at block `b`'s place.
pub open spec fn stored(l: Layout, out: Seq<u8>, b: u32, data: Seq<u8>) -> Seq<u8> {
    out.subrange(0, l.start(b as int)) + data + out.subrange(l.end(b as int), out.len() as int)
}

/// `out` after blocks of `file` were written at their places, in this order.
pub open spec fn stored_all(l: Layout, file: Seq<u8>, out: Seq<u8>, order: Seq<u32>) -> Seq<u8>
    decreases order.len(),
{
    if order.len() == 0 {
        out
    } else {
        let b = order.last();
        stored(l, stored_all(l, file, out, order.drop_last()), b, l.block(file, b as int))
    }
}

/// Writing every block at its place, in whatever order and whatever was there
/// before, gives the file.
pub proof fn law_stored_blocks_are_the_file(
    l: Layout,
    file: Seq<u8>,
    out: Seq<u8>,
    order: Seq<u32>,
)
    requires
        l.wf(),
        file.len() == l.file_size,
        out.len() == l.file_size,
        forall|i: int| 0 <= i < order.len() ==> #[trigger] order[i] < l.num_blocks,
        forall|b: u32| b < l.num_blocks ==> #[trigger] order.contains(b),
    ensures
        stored_all(l, file, out, order) == file,
{
    lemma_stored_all(l, file, out, order);
    let all = stored_all(l, file, out, order);
    assert forall|x: int| 0 <= x < file.len() implies all[x] == file[x] by {
        let s = l.block_size as int;
        let b = x / s;
        lemma_fundamental_div_mod(x, s);
        lemma_ceil_div(l.file_size as nat, l.block_size as nat);
        assert(0 <= b && b * s <= x < b * s + s && b < l.num_blocks) by (nonlinear_arith)
            requires
                x == s * b + x % s,
                0 <= x % s < s,
                0 <= x < l.file_size,
                l.file_size <= s * l.num_blocks,
        ;
        assert(order.contains(b as u32));
        let i = choose|i: int| 0 <= i < order.len() && order[i] == b as u32;
        assert(l.start(order[i] as int) <= x < l.end(order[i] as int));
    }
    assert(all =~= file);
}

proof fn lemma_stored_all(l: Layout, file: Seq<u8>, out: Seq<u8>, order: Seq<u32>)
    requires
        l.wf(),
        file.len() == l.file_size,
        out.len() == l.file_size,
        forall|i: int| 0 <= i < order.len() ==> #[trigger] order[i] < l.num_blocks,
    ensures
        stored_all(l, file, out, order).len() == file.len(),
        forall|i: int, x: int|
            #![trigger order[i], file[x]]
            0 <= i < order.len() && l.start(order[i] as int) <= x < l.end(order[i] as int)
                ==> stored_all(l, file, out, order)[x] == file[x],
    decreases order.len(),
{
    if order.len() > 0 {
        let front = order.drop_last();
        let last = order.last();
        assert(order[order.len() - 1] == last);
        assert forall|i: int| 0 <= i < front.len() implies #[trigger] front[i] < l.num_blocks by {
            assert(front[i] == order[i]);
        }
        lemma_stored_all(l, file, out, front);
        l.lemma_bounds(last as int);
        let before = stored_all(l, file, out, front);
        let after = stored_all(l, file, out, order);
        assert(after.len() == file.len());
        assert forall|i: int, x: int|
            #![trigger order[i], file[x]]
            0 <= i < order.len() && l.start(order[i] as int) <= x < l.end(
                order[i] as int,
            ) implies after[x] == file[x] by {
            l.lemma_bounds(order[i] as int);
            if l.start(last as int) <= x < l.end(last as int) {
                assert(after[x] == l.block(file, last as int)[x - l.start(last as int)]);
            } else {
                assert(i < front.len());
                assert(front[i] == order[i]);
                assert(before[x] == file[x]);
                assert(after[x] == before[x]);
            }
        }
    }
}

/// Each block begins where so many whole ones end, and ends one block later or
/// with the file; its bytes are those of the file in between.
pub proof fn law_a_block_is_its_part_of_the_file(l: Layout, data: Seq<u8>, b: int)
    requires
        l.wf(),
        data.len() == l.file_size,
        0 <= b < l.num_blocks,
    ensures
        l.start(b) == b * l.block_size,
        b < l.num_blocks - 1 ==> l.end(b) == (b + 1) * l.block_size,
        b == l.num_blocks - 1 ==> l.end(b) == l.file_size,
        l.len(b) == l.end(b) - l.start(b),
        l.block(data, b).len() == l.len(b),
        forall|i: int|
            0 <= i < l.len(b) ==> #[trigger] l.block(data, b)[i] == data[b * l.block_size + i],
{
    law_blocks_partition_the_file(l);
    l.lemma_bounds(b);
    assert((b + 1) * l.block_size == b * l.block_size + l.block_size) by (nonlinear_arith);
    if b < l.num_blocks - 1 {
        assert(l.end(b) == l.start(b + 1));
    }
}

/// A block has one source symbol for each symbol size of its bytes, and one
/// for the rest.
pub proof fn law_symbols_cover_the_block(l: Layout, b: int)
    requires
        l.wf(),
        0 <= b < l.num_blocks,
    ensures
        (l.symbols(b) - 1) * l.symbol_size < l.len(b) <= l.symbols(b) * l.symbol_size,
{
    l.lemma_bounds(b);
    let s = l.symbol_size as nat;
    let k = l.symbols(b);
    lemma_ceil_div(l.len(b) as nat, s);
    assert((k - 1) * s == s * k - s && k * s == s * k) by (nonlinear_arith);
}

/// A layout is sound exactly where no size is zero and its blocks, of which
/// all but the last are full and the last is not empty, make up the file.
pub proof fn law_a_sound_layout_covers_the_file(l: Layout)
    ensures
        l.wf() <==> {
            &&& l.file_size > 0
            &&& l.block_size > 0
            &&& l.symbol_size > 0
            &&& (l.num_blocks - 1) * l.block_size < l.file_size <= l.num_blocks * l.block_size
        },
{
    if l.block_size > 0 {
        let q = ceil_div(l.file_size as nat, l.block_size as nat);
        lemma_ceil_div(l.file_size as nat, l.block_size as nat);
        assert(q == l.num_blocks <==> (l.num_blocks - 1) * l.block_size < l.file_size
            <= l.num_blocks * l.block_size) by (nonlinear_arith)
            requires
                l.block_size > 0,
                l.file_size <= l.block_size * q,
                l.block_size * q < l.file_size + l.block_size,
        ;
    }
}

} // verus!
