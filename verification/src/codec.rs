//! Fixed-width integers as bytes.

use vstd::prelude::*;

verus! {

/// The `width` low bytes of `n`, least significant first.
pub open spec fn le_bytes(n: nat, width: nat) -> Seq<u8>
    decreases width,
{
    if width == 0 {
        Seq::empty()
    } else {
        seq![(n % 256) as u8] + le_bytes(n / 256, (width - 1) as nat)
    }
}

/// The number whose bytes, least significant first, are `s`.
pub open spec fn le_value(s: Seq<u8>) -> nat
    decreases s.len(),
{
    if s.len() == 0 {
        0
    } else {
        s[0] as nat + 256 * le_value(s.subrange(1, s.len() as int))
    }
}

/// The `width` low bytes of `n`, most significant first.
pub open spec fn be_bytes(n: nat, width: nat) -> Seq<u8> {
    le_bytes(n, width).reverse()
}

/// `256` to the power `width`: the first number that does not fit in `width` bytes.
pub open spec fn byte_range(width: nat) -> nat
    decreases width,
{
    if width == 0 {
        1
    } else {
        256 * byte_range((width - 1) as nat)
    }
}

/// An encoding has exactly the width that was asked for.
pub proof fn lemma_le_len(n: nat, width: nat)
    ensures
        le_bytes(n, width).len() == width,
    decreases width,
{
    if width > 0 {
        lemma_le_len(n / 256, (width - 1) as nat);
    }
}

/// Reading back an encoding gives the number, for every number that fits.
pub proof fn lemma_le_round_trip(n: nat, width: nat)
    requires
        n < byte_range(width),
    ensures
        le_value(le_bytes(n, width)) == n,
    decreases width,
{
    if width > 0 {
        let w = (width - 1) as nat;
        let s = le_bytes(n, width);
        assert(n / 256 < byte_range(w));
        lemma_le_round_trip(n / 256, w);
        lemma_le_len(n / 256, w);
        assert(s.subrange(1, s.len() as int) =~= le_bytes(n / 256, w));
        assert(s[0] as nat == n % 256);
    }
}

/// Every byte string is the encoding of its value, and its value fits.
pub proof fn lemma_le_value_bytes(s: Seq<u8>)
    ensures
        le_bytes(le_value(s), s.len()) == s,
        le_value(s) < byte_range(s.len()),
    decreases s.len(),
{
    if s.len() > 0 {
        let t = s.subrange(1, s.len() as int);
        lemma_le_value_bytes(t);
        let v = le_value(s);
        assert(v == s[0] as nat + 256 * le_value(t));
        assert(v % 256 == s[0] as nat);
        assert(v / 256 == le_value(t));
        assert(le_bytes(v, s.len()) =~= seq![s[0]] + t);
        assert(s =~= seq![s[0]] + t);
    }
}

/// The widths in use cover exactly the machine integers.
pub proof fn lemma_byte_range()
    ensures
        byte_range(4) == 0x1_0000_0000,
        byte_range(8) == 0x1_0000_0000_0000_0000,
{
    reveal_with_fuel(byte_range, 9);
}

/// Append the low `width` bytes of `x`, least significant first.
fn push_le(out: &mut Vec<u8>, x: u64, width: usize)
    ensures
        final(out)@ == old(out)@ + le_bytes(x as nat, width as nat),
{
    let mut rest: u64 = x;
    let mut i: usize = 0;
    let ghost before = out@;
    assert(out@ + le_bytes(rest as nat, width as nat) =~= before + le_bytes(x as nat, width as nat));
    while i < width
        invariant
            i <= width,
            out@ + le_bytes(rest as nat, (width - i) as nat) == before + le_bytes(
                x as nat,
                width as nat,
            ),
        decreases width - i,
    {
        let ghost tail = le_bytes(rest as nat / 256, (width - i - 1) as nat);
        let ghost prev = out@;
        out.push((rest % 256) as u8);
        assert(le_bytes(rest as nat, (width - i) as nat) == seq![(rest as nat % 256) as u8] + tail);
        assert(out@ + tail =~= prev + (seq![(rest as nat % 256) as u8] + tail));
        rest = rest / 256;
        i = i + 1;
    }
    assert(out@ + le_bytes(rest as nat, 0) =~= out@);
}

/// Append `x` as four bytes, least significant first.
pub fn push_u32_le(out: &mut Vec<u8>, x: u32)
    ensures
        final(out)@ == old(out)@ + le_bytes(x as nat, 4),
{
    push_le(out, x as u64, 4);
}

/// Append `x` as eight bytes, least significant first.
pub fn push_u64_le(out: &mut Vec<u8>, x: u64)
    ensures
        final(out)@ == old(out)@ + le_bytes(x as nat, 8),
{
    push_le(out, x, 8);
}

/// The value of the bytes `buf[from..to]`, least significant first.
fn read_le(buf: &[u8], from: usize, to: usize) -> (x: u64)
    requires
        from <= to <= buf@.len(),
        to - from <= 8,
    ensures
        x == le_value(buf@.subrange(from as int, to as int)),
{
    let mut x: u64 = 0;
    let mut i: usize = to;
    proof {
        assert(buf@.subrange(to as int, to as int) =~= Seq::<u8>::empty());
    }
    while i > from
        invariant
            from <= i <= to <= buf@.len(),
            to - from <= 8,
            x == le_value(buf@.subrange(i as int, to as int)),
        decreases i,
    {
        proof {
            let t = buf@.subrange(i as int, to as int);
            let s = buf@.subrange(i - 1, to as int);
            assert(s.subrange(1, s.len() as int) =~= t);
            lemma_le_value_bytes(t);
            lemma_byte_range_grows(t.len(), 7);
            reveal_with_fuel(byte_range, 9);
        }
        i = i - 1;
        x = buf[i] as u64 + 256 * x;
    }
    x
}

proof fn lemma_byte_range_grows(a: nat, b: nat)
    requires
        a <= b,
    ensures
        1 <= byte_range(a) <= byte_range(b),
    decreases b,
{
    if a < b {
        lemma_byte_range_grows(a, (b - 1) as nat);
    } else if b > 0 {
        lemma_byte_range_grows((b - 1) as nat, (b - 1) as nat);
    }
}

/// The four bytes at `at`, least significant first.
pub fn read_u32_le(buf: &[u8], at: usize) -> (x: u32)
    requires
        at + 4 <= buf@.len(),
    ensures
        x == le_value(buf@.subrange(at as int, at + 4)),
{
    assert(buf@.len() == buf.len());
    let x: u64 = read_le(buf, at, at + 4);
    proof {
        lemma_le_value_bytes(buf@.subrange(at as int, at + 4));
        lemma_byte_range();
    }
    x as u32
}

/// The eight bytes at `at`, least significant first.
pub fn read_u64_le(buf: &[u8], at: usize) -> (x: u64)
    requires
        at + 8 <= buf@.len(),
    ensures
        x == le_value(buf@.subrange(at as int, at + 8)),
{
    assert(buf@.len() == buf.len());
    read_le(buf, at, at + 8)
}

/// Append `bytes`.
pub fn push_bytes(out: &mut Vec<u8>, bytes: &[u8])
    ensures
        final(out)@ == old(out)@ + bytes@,
{
    out.extend_from_slice(bytes);
    assert(out@ =~= old(out)@ + bytes@);
}

/// Bytes are read by their places: the first counts for itself, each later one
/// for 256 times as much as the one before it.
pub proof fn law_bytes_count_by_their_places(s: Seq<u8>)
    ensures
        s.len() == 4 ==> le_value(s) == s[0] + 0x100 * s[1] + 0x1_0000 * s[2] + 0x100_0000 * s[3],
        s.len() == 8 ==> le_value(s) == s[0] + 0x100 * s[1] + 0x1_0000 * s[2] + 0x100_0000 * s[3]
            + 0x1_0000_0000 * s[4] + 0x100_0000_0000 * s[5] + 0x1_0000_0000_0000 * s[6]
            + 0x100_0000_0000_0000 * s[7],
{
    reveal_with_fuel(le_value, 9);
    if s.len() == 4 || s.len() == 8 {
        let n = s.len() as int;
        let a = s.subrange(1, n);
        let b = a.subrange(1, n - 1);
        let c = b.subrange(1, n - 2);
        let d = c.subrange(1, n - 3);
        assert(a[0] == s[1] && b[0] == s[2] && c[0] == s[3]);
        if n == 8 {
            let e = d.subrange(1, n - 4);
            let f = e.subrange(1, n - 5);
            let g = f.subrange(1, n - 6);
            assert(d[0] == s[4] && e[0] == s[5] && f[0] == s[6] && g[0] == s[7]);
        }
    }
}

/// A number is written in as many bytes as were asked for, and read back as
/// itself; most significant byte first, it is the same bytes in reverse.
pub proof fn law_numbers_are_written_and_read(n: u64, m: u32)
    ensures
        le_bytes(n as nat, 8).len() == 8 && le_value(le_bytes(n as nat, 8)) == n,
        le_bytes(m as nat, 4).len() == 4 && le_value(le_bytes(m as nat, 4)) == m,
        be_bytes(n as nat, 8).len() == 8,
        forall|i: int|
            0 <= i < 8 ==> #[trigger] be_bytes(n as nat, 8)[i] == le_bytes(n as nat, 8)[7 - i],
{
    lemma_le_len(n as nat, 8);
    lemma_le_len(m as nat, 4);
    lemma_byte_range();
    lemma_le_round_trip(n as nat, 8);
    lemma_le_round_trip(m as nat, 4);
}

} // verus!
