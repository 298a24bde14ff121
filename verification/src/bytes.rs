//! Little-endian integers over byte sequences, and a bounds-checked reader.

use vstd::prelude::*;

verus! {

/// `256^k`.
pub open spec fn pow256(k: nat) -> nat
    decreases k,
{
    if k == 0 {
        1
    } else {
        256 * pow256((k - 1) as nat)
    }
}

/// The `k` low-order bytes of `x`, least significant first.
pub open spec fn le_bytes(x: nat, k: nat) -> Seq<u8>
    decreases k,
{
    if k == 0 {
        Seq::empty()
    } else {
        seq![(x % 256) as u8] + le_bytes(x / 256, (k - 1) as nat)
    }
}

/// The number whose little-endian encoding is `s`.
pub open spec fn le_value(s: Seq<u8>) -> nat
    decreases s.len(),
{
    if s.len() == 0 {
        0
    } else {
        s[0] as nat + 256 * le_value(s.drop_first())
    }
}

pub proof fn lemma_le_bytes_len(x: nat, k: nat)
    ensures
        le_bytes(x, k).len() == k,
    decreases k,
{
    if k > 0 {
        lemma_le_bytes_len(x / 256, (k - 1) as nat);
    }
}

/// Decoding an encoding gives the number back, when it fits in `k` bytes.
pub proof fn lemma_le_roundtrip(x: nat, k: nat)
    requires
        x < pow256(k),
    ensures
        le_value(le_bytes(x, k)) == x,
    decreases k,
{
    lemma_le_bytes_len(x, k);
    if k == 0 {
    } else {
        let rest = le_bytes(x / 256, (k - 1) as nat);
        let p = pow256((k - 1) as nat);
        assert(x / 256 < p) by (nonlinear_arith)
            requires
                x < 256 * p,
        ;
        lemma_le_roundtrip(x / 256, (k - 1) as nat);
        assert(le_bytes(x, k).drop_first() =~= rest);
        assert(x == x % 256 + 256 * (x / 256)) by (nonlinear_arith);
    }
}

pub open spec fn le_u32_at(d: Seq<u8>, p: int) -> nat {
    le_value(d.subrange(p, p + 4))
}

pub open spec fn le_u64_at(d: Seq<u8>, p: int) -> nat {
    le_value(d.subrange(p, p + 8))
}

/// Take `len` bytes at `*pos` and advance past them; `None`, with `*pos`
/// unchanged, when fewer than `len` bytes remain.
pub fn rd<'a>(data: &'a [u8], pos: &mut usize, len: usize) -> (r: Option<&'a [u8]>)
    ensures
        match r {
            Some(s) => {
                &&& old(pos) + len <= data@.len()
                &&& s@ == data@.subrange(*old(pos) as int, old(pos) + len)
                &&& *final(pos) == old(pos) + len
            },
            None => {
                &&& old(pos) + len > data@.len()
                &&& *final(pos) == *old(pos)
            },
        },
{
    let size = data.len();
    let end = match pos.checked_add(len) {
        Some(e) => e,
        None => return None,
    };
    if end > size {
        return None;
    }
    let slice = &data[*pos..end];
    *pos = end;
    Some(slice)
}

/// Read a little-endian `u32` at `*pos`.
pub fn rd_u32(data: &[u8], pos: &mut usize) -> (r: Option<u32>)
    ensures
        match r {
            Some(v) => {
                &&& old(pos) + 4 <= data@.len()
                &&& v as nat == le_u32_at(data@, *old(pos) as int)
                &&& *final(pos) == old(pos) + 4
            },
            None => old(pos) + 4 > data@.len() && *final(pos) == *old(pos),
        },
{
    let s = rd(data, pos, 4)?;
    proof {
        reveal_with_fuel(le_value, 5);
        assert(s@.drop_first().drop_first().drop_first().drop_first() =~= Seq::<u8>::empty());
    }
    Some(s[0] as u32 + 256 * (s[1] as u32) + 65536 * (s[2] as u32) + 16777216 * (s[3] as u32))
}

/// Read a little-endian `u64` at `*pos`.
pub fn rd_u64(data: &[u8], pos: &mut usize) -> (r: Option<u64>)
    ensures
        match r {
            Some(v) => {
                &&& old(pos) + 8 <= data@.len()
                &&& v as nat == le_u64_at(data@, *old(pos) as int)
                &&& *final(pos) == old(pos) + 8
            },
            None => old(pos) + 8 > data@.len() && *final(pos) == *old(pos),
        },
{
    let s = rd(data, pos, 8)?;
    proof {
        reveal_with_fuel(le_value, 9);
        assert(s@.drop_first().drop_first().drop_first().drop_first().drop_first().drop_first().drop_first().drop_first() =~= Seq::<u8>::empty());
    }
    let lo = s[0] as u64 + 256 * (s[1] as u64) + 65536 * (s[2] as u64) + 16777216 * (s[3] as u64);
    let hi = s[4] as u64 + 256 * (s[5] as u64) + 65536 * (s[6] as u64) + 16777216 * (s[7] as u64);
    Some(lo + 4294967296 * hi)
}

/// Append the `k`-byte little-endian encoding of `x`.
pub fn push_le(buf: &mut Vec<u8>, x: u64, k: usize)
    requires
        k <= 8,
    ensures
        final(buf)@ == old(buf)@ + le_bytes(x as nat, k as nat),
    decreases k,
{
    if k > 0 {
        let ghost b0 = buf@;
        buf.push((x % 256) as u8);
        push_le(buf, x / 256, k - 1);
        assert(buf@ =~= b0 + le_bytes(x as nat, k as nat));
    }
}

} // verus!
