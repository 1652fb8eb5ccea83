//! Byte helpers and the byte format of a catalog entry: little-endian
//! integers, the path, the block list, the total length and the stamp.

use vstd::prelude::*;

use crate::segment_handle::SegmentHandle;

verus! {

/// Block numbers, four bytes each.
pub open spec fn blocks_bytes(b: Seq<u32>) -> Seq<u8>
    decreases b.len(),
{
    if b.len() == 0 {
        Seq::empty()
    } else {
        blocks_bytes(b.drop_last()) + le_bytes(b.last() as nat, 4)
    }
}

/// A catalog entry as stored: path length, path, block count, blocks, total
/// byte length and the stamp of the write that laid the blocks out.
pub open spec fn record_bytes(path: Seq<u8>, blocks: Seq<u32>, total: nat, stamp: nat) -> Seq<
    u8,
> {
    le_bytes(path.len(), 4) + path + le_bytes(blocks.len(), 4) + blocks_bytes(blocks) + le_bytes(
        total,
        8,
    ) + le_bytes(stamp, 8)
}

/// What a stored catalog entry holds, if the bytes have the entry's shape.
pub open spec fn parse_record(s: Seq<u8>) -> Option<(Seq<u8>, Seq<u32>, nat, nat)> {
    if s.len() < 4 {
        None
    } else {
        let n = le_value(s.subrange(0, 4)) as int;
        if s.len() < 8 + n {
            None
        } else {
            let m = le_value(s.subrange(4 + n, 8 + n)) as int;
            if s.len() != 24 + n + 4 * m {
                None
            } else {
                Some(
                    (
                        s.subrange(4, 4 + n),
                        Seq::new(
                            m as nat,
                            |i: int| le_value(s.subrange(8 + n + 4 * i, 12 + n + 4 * i)) as u32,
                        ),
                        le_value(s.subrange(8 + n + 4 * m, 16 + n + 4 * m)),
                        le_value(s.subrange(16 + n + 4 * m, 24 + n + 4 * m)),
                    ),
                )
            }
        }
    }
}

/// The handle that a stored catalog entry decodes to.
pub open spec fn decode_spec(s: Seq<u8>) -> Option<(Seq<u8>, Seq<u32>, nat, nat)> {
    match parse_record(s) {
        Some((p, b, t, st)) => if t <= usize::MAX {
            Some((p, b, t, st))
        } else {
            None
        },
        None => None,
    }
}

pub open spec fn record_fits(path: Seq<u8>, blocks: Seq<u32>) -> bool {
    path.len() <= u32::MAX && blocks.len() <= u32::MAX
}

pub proof fn lemma_blocks_bytes(b: Seq<u32>)
    ensures
        blocks_bytes(b).len() == 4 * b.len(),
        forall|i: int|
            0 <= i < b.len() ==> #[trigger] blocks_bytes(b).subrange(4 * i, 4 * i + 4)
                == le_bytes(b[i] as nat, 4),
    decreases b.len(),
{
    if b.len() > 0 {
        let p = b.drop_last();
        lemma_blocks_bytes(p);
        lemma_le_bytes_len(b.last() as nat, 4);
        assert forall|i: int| 0 <= i < b.len() implies #[trigger] blocks_bytes(b).subrange(
            4 * i,
            4 * i + 4,
        ) == le_bytes(b[i] as nat, 4) by {
            if i < b.len() - 1 {
                assert(blocks_bytes(b).subrange(4 * i, 4 * i + 4) =~= blocks_bytes(p).subrange(
                    4 * i,
                    4 * i + 4,
                ));
                assert(p[i] == b[i]);
            } else {
                assert(blocks_bytes(b).subrange(4 * i, 4 * i + 4) =~= le_bytes(
                    b.last() as nat,
                    4,
                ));
            }
        }
    }
}

proof fn lemma_pow_values()
    ensures
        pow256(4) == 4294967296nat,
        pow256(8) == 18446744073709551616nat,
{
    reveal_with_fuel(pow256, 9);
}

/// Decoding what was encoded gives the entry back.
pub proof fn lemma_record_round_trip(path: Seq<u8>, blocks: Seq<u32>, total: nat, stamp: nat)
    requires
        record_fits(path, blocks),
        total <= usize::MAX,
        stamp <= u64::MAX,
    ensures
        decode_spec(record_bytes(path, blocks, total, stamp)) == Some((path, blocks, total, stamp)),
{
    let s = record_bytes(path, blocks, total, stamp);
    let n = path.len() as int;
    let m = blocks.len() as int;
    lemma_pow_values();
    lemma_le_bytes_len(n as nat, 4);
    lemma_le_bytes_len(m as nat, 4);
    lemma_le_bytes_len(total, 8);
    lemma_le_bytes_len(stamp, 8);
    lemma_blocks_bytes(blocks);
    lemma_le_round_trip(n as nat, 4);
    lemma_le_round_trip(m as nat, 4);
    lemma_le_round_trip(total, 8);
    lemma_le_round_trip(stamp, 8);
    assert(s.subrange(0, 4) =~= le_bytes(n as nat, 4));
    assert(s.subrange(4, 4 + n) =~= path);
    assert(s.subrange(4 + n, 8 + n) =~= le_bytes(m as nat, 4));
    assert(s.subrange(8 + n + 4 * m, 16 + n + 4 * m) =~= le_bytes(total, 8));
    assert(s.subrange(16 + n + 4 * m, 24 + n + 4 * m) =~= le_bytes(stamp, 8));
    let bs = Seq::new(m as nat, |i: int| le_value(s.subrange(8 + n + 4 * i, 12 + n + 4 * i)) as u32);
    assert forall|i: int| 0 <= i < m implies bs[i] == blocks[i] by {
        assert(s.subrange(8 + n + 4 * i, 12 + n + 4 * i) =~= blocks_bytes(blocks).subrange(
            4 * i,
            4 * i + 4,
        ));
        lemma_le_round_trip(blocks[i] as nat, 4);
    }
    assert(bs =~= blocks);
}

/// Encodes a catalog entry.
pub fn encode_handle(path: &[u8], blocks: &[u32], total_bytes: usize, stamp: u64) -> (r: Vec<u8>)
    requires
        record_fits(path@, blocks@),
    ensures
        r@ == record_bytes(path@, blocks@, total_bytes as nat, stamp as nat),
{
    let mut out: Vec<u8> = Vec::new();
    push_le(&mut out, path.len() as u64, 4);
    let mut i: usize = 0;
    while i < path.len()
        invariant
            i <= path@.len(),
            out@ == le_bytes(path@.len(), 4) + path@.subrange(0, i as int),
        decreases path@.len() - i,
    {
        out.push(path[i]);
        assert(path@.subrange(0, i + 1) =~= path@.subrange(0, i as int).push(path@[i as int]));
        assert(out@ =~= le_bytes(path@.len(), 4) + path@.subrange(0, i + 1));
        i = i + 1;
    }
    assert(path@.subrange(0, path@.len() as int) =~= path@);
    push_le(&mut out, blocks.len() as u64, 4);
    let ghost base = out@;
    let mut j: usize = 0;
    while j < blocks.len()
        invariant
            j <= blocks@.len(),
            out@ == base + blocks_bytes(blocks@.subrange(0, j as int)),
        decreases blocks@.len() - j,
    {
        push_le(&mut out, blocks[j] as u64, 4);
        assert(blocks@.subrange(0, j + 1).drop_last() =~= blocks@.subrange(0, j as int));
        assert(out@ =~= base + blocks_bytes(blocks@.subrange(0, j + 1)));
        j = j + 1;
    }
    assert(blocks@.subrange(0, blocks@.len() as int) =~= blocks@);
    push_le(&mut out, total_bytes as u64, 8);
    push_le(&mut out, stamp, 8);
    assert(out@ =~= record_bytes(path@, blocks@, total_bytes as nat, stamp as nat));
    out
}

pub open spec fn record_len(path: Seq<u8>, blocks: Seq<u32>) -> int {
    (24 + path.len() + 4 * blocks.len()) as int
}

pub proof fn lemma_record_len(path: Seq<u8>, blocks: Seq<u32>, total: nat, stamp: nat)
    ensures
        record_bytes(path, blocks, total, stamp).len() == record_len(path, blocks),
{
    lemma_le_bytes_len(stamp, 8);
    lemma_le_bytes_len(path.len(), 4);
    lemma_le_bytes_len(blocks.len(), 4);
    lemma_le_bytes_len(total, 8);
    lemma_blocks_bytes(blocks);
}

/// Decodes a catalog entry; `None` where the bytes do not have its shape.
pub fn decode_handle(s: &Vec<u8>) -> (r: Option<SegmentHandle>)
    ensures
        match decode_spec(s@) {
            Some((p, b, t, st)) => r is Some && r->0.path@ == p && r->0.blocks@ == b
                && r->0.total_bytes as nat == t && r->0.stamp as nat == st,
            None => r is None,
        },
{
    let len = s.len();
    if len < 8 {
        proof {
            if len >= 4 {
                assert(len < 8 + le_value(s@.subrange(0, 4)));
            }
        }
        return None;
    }
    let n64 = read_le(s, 0, 4);
    if n64 > (len - 8) as u64 {
        return None;
    }
    let n = n64 as usize;
    let m64 = read_le(s, 4 + n, 4);
    let rest = len - 8 - n;
    if rest < 16 || m64 > ((rest - 16) / 4) as u64 || (m64 as usize) * 4 + 16 != rest {
        proof {
            if rest >= 16 && m64 <= ((rest - 16) / 4) as u64 {
            } else {
                assert(s@.len() != 24 + n + 4 * m64);
            }
        }
        return None;
    }
    let m = m64 as usize;
    let mut path: Vec<u8> = Vec::new();
    let mut i: usize = 0;
    while i < n
        invariant
            i <= n,
            4 + n <= len,
            len == s@.len(),
            path@ == s@.subrange(4, 4 + i),
        decreases n - i,
    {
        path.push(s[4 + i]);
        assert(s@.subrange(4, 4 + i + 1) =~= s@.subrange(4, 4 + i).push(s@[4 + i]));
        i = i + 1;
    }
    let mut blocks: Vec<u32> = Vec::new();
    let mut j: usize = 0;
    let ghost expect = Seq::new(
        m as nat,
        |k: int| le_value(s@.subrange(8 + n + 4 * k, 12 + n + 4 * k)) as u32,
    );
    while j < m
        invariant
            j <= m,
            len == s@.len(),
            len == 24 + n + 4 * m,
            expect == Seq::new(
                m as nat,
                |k: int| le_value(s@.subrange(8 + n + 4 * k, 12 + n + 4 * k)) as u32,
            ),
            blocks@ == expect.subrange(0, j as int),
        decreases m - j,
    {
        let v = read_le(s, 8 + n + 4 * j, 4);
        proof {
            lemma_le_value_bound(s@.subrange(8 + n + 4 * j, 12 + n + 4 * j));
            lemma_pow_values();
        }
        blocks.push(v as u32);
        assert(blocks@ =~= expect.subrange(0, j + 1));
        j = j + 1;
    }
    assert(expect.subrange(0, m as int) =~= expect);
    let t = read_le(s, 8 + n + 4 * m, 8);
    let stamp = read_le(s, 16 + n + 4 * m, 8);
    if t > usize::MAX as u64 {
        return None;
    }
    Some(SegmentHandle { path, blocks, total_bytes: t as usize, stamp })
}

pub open spec fn pow256(n: nat) -> nat
    decreases n,
{
    if n == 0 {
        1
    } else {
        256 * pow256((n - 1) as nat)
    }
}

/// The `n` low bytes of `x`, least significant first.
pub open spec fn le_bytes(x: nat, n: nat) -> Seq<u8>
    decreases n,
{
    if n == 0 {
        Seq::empty()
    } else {
        seq![(x % 256) as u8] + le_bytes(x / 256, (n - 1) as nat)
    }
}

/// The number that the bytes `s` give, least significant first.
pub open spec fn le_value(s: Seq<u8>) -> nat
    decreases s.len(),
{
    if s.len() == 0 {
        0
    } else {
        (s[0] + 256 * le_value(s.drop_first())) as nat
    }
}

pub proof fn lemma_pow256_pos(n: nat)
    ensures
        pow256(n) >= 1,
    decreases n,
{
    if n > 0 {
        lemma_pow256_pos((n - 1) as nat);
    }
}

pub proof fn lemma_le_bytes_len(x: nat, n: nat)
    ensures
        le_bytes(x, n).len() == n,
    decreases n,
{
    if n > 0 {
        lemma_le_bytes_len(x / 256, (n - 1) as nat);
    }
}

pub proof fn lemma_le_round_trip(x: nat, n: nat)
    requires
        x < pow256(n),
    ensures
        le_value(le_bytes(x, n)) == x,
    decreases n,
{
    if n > 0 {
        let rest = le_bytes(x / 256, (n - 1) as nat);
        let s = le_bytes(x, n);
        assert(s.drop_first() =~= rest);
        assert(x / 256 < pow256((n - 1) as nat)) by (nonlinear_arith)
            requires
                x < 256 * pow256((n - 1) as nat),
        ;
        lemma_le_round_trip(x / 256, (n - 1) as nat);
        assert(x == x % 256 + 256 * (x / 256)) by (nonlinear_arith);
    }
}

pub proof fn lemma_le_value_bound(s: Seq<u8>)
    ensures
        le_value(s) < pow256(s.len()),
    decreases s.len(),
{
    if s.len() > 0 {
        lemma_le_value_bound(s.drop_first());
        let r = le_value(s.drop_first());
        let p = pow256((s.len() - 1) as nat);
        assert(s[0] + 256 * r < 256 * p) by (nonlinear_arith)
            requires
                r < p,
                s[0] < 256,
        ;
    }
}

/// Appends the `n` low bytes of `x` to `out`.
pub fn push_le(out: &mut Vec<u8>, x: u64, n: usize)
    requires
        n <= 8,
    ensures
        final(out)@ == old(out)@ + le_bytes(x as nat, n as nat),
{
    let mut v: u64 = x;
    let mut i: usize = 0;
    while i < n
        invariant
            i <= n,
            out@ + le_bytes(v as nat, (n - i) as nat) == old(out)@ + le_bytes(x as nat, n as nat),
        decreases n - i,
    {
        let ghost before = out@;
        out.push((v % 256) as u8);
        proof {
            assert(le_bytes(v as nat, (n - i) as nat) =~= seq![(v % 256) as u8] + le_bytes(
                (v / 256) as nat,
                (n - i - 1) as nat,
            ));
            assert(out@ + le_bytes((v / 256) as nat, (n - i - 1) as nat) =~= before + le_bytes(
                v as nat,
                (n - i) as nat,
            ));
        }
        v = v / 256;
        i = i + 1;
    }
    assert(le_bytes(v as nat, 0) =~= Seq::<u8>::empty());
    assert(out@ =~= out@ + Seq::<u8>::empty());
}

/// Reads the `n` bytes of `s` at `off` as a little-endian number.
pub fn read_le(s: &Vec<u8>, off: usize, n: usize) -> (r: u64)
    requires
        n <= 8,
        off + n <= s@.len(),
    ensures
        r as nat == le_value(s@.subrange(off as int, off + n)),
{
    let len = s.len();
    let mut acc: u64 = 0;
    let mut i: usize = n;
    while i > 0
        invariant
            i <= n,
            n <= 8,
            off + n <= s@.len(),
            len == s@.len(),
            acc as nat == le_value(s@.subrange(off + i, off + n)),
        decreases i,
    {
        let ghost tail = s@.subrange(off + i, off + n);
        let ghost ext = s@.subrange(off + i - 1, off + n);
        assert(ext.drop_first() =~= tail);
        proof {
            lemma_le_value_bound(tail);
            lemma_pow_bound((n - i) as nat);
        }
        let b = s[off + (i - 1)];
        assert(acc * 256 + b <= u64::MAX) by (nonlinear_arith)
            requires
                acc < pow256((n - i) as nat),
                pow256((n - i) as nat) <= pow256(7),
                pow256(7) == 72057594037927936nat,
                b < 256,
        ;
        acc = acc * 256 + b as u64;
        i = i - 1;
    }
    acc
}

proof fn lemma_pow_bound(k: nat)
    requires
        k <= 7,
    ensures
        pow256(k) <= pow256(7),
        pow256(7) == 72057594037927936nat,
    decreases 7 - k,
{
    reveal_with_fuel(pow256, 8);
    if k < 7 {
        lemma_pow_bound(k + 1);
        lemma_pow256_pos(k);
    }
}

} // verus!

verus! {

/// A copy of `data[from..to]`.
pub fn copy_range(data: &[u8], from: usize, to: usize) -> (r: Vec<u8>)
    requires
        from <= to <= data@.len(),
    ensures
        r@ == data@.subrange(from as int, to as int),
{
    let mut out: Vec<u8> = Vec::new();
    let mut i: usize = from;
    while i < to
        invariant
            from <= i <= to,
            to <= data@.len(),
            out@ == data@.subrange(from as int, i as int),
        decreases to - i,
    {
        out.push(data[i]);
        assert(data@.subrange(from as int, i + 1) =~= data@.subrange(from as int, i as int).push(
            data@[i as int],
        ));
        i = i + 1;
    }
    out
}

/// Appends `data[from..to]` to `out`.
pub fn append_range(out: &mut Vec<u8>, data: &[u8], from: usize, to: usize)
    requires
        from <= to <= data@.len(),
    ensures
        final(out)@ == old(out)@ + data@.subrange(from as int, to as int),
{
    let mut i: usize = from;
    while i < to
        invariant
            from <= i <= to,
            to <= data@.len(),
            out@ == old(out)@ + data@.subrange(from as int, i as int),
        decreases to - i,
    {
        out.push(data[i]);
        assert(data@.subrange(from as int, i + 1) =~= data@.subrange(from as int, i as int).push(
            data@[i as int],
        ));
        assert(out@ =~= old(out)@ + data@.subrange(from as int, i + 1));
        i = i + 1;
    }
}

} // verus!
