//! Byte-sequence helpers: big-endian integer reads and `Vec<u8>` editing
//! (append, prefix consume, range copy) with exact sequence-level contracts.

use vstd::prelude::*;

verus! {

/// Big-endian 32-bit word formed by `s[i .. i+4]`.
pub open spec fn be32_at(s: Seq<u8>, i: int) -> u32
    recommends
        0 <= i,
        i + 4 <= s.len(),
{
    (s[i] * 0x100_0000 + s[i + 1] * 0x1_0000 + s[i + 2] * 0x100 + s[i + 3]) as u32
}

/// Big-endian 16-bit word formed by `s[i .. i+2]`.
pub open spec fn be16_at(s: Seq<u8>, i: int) -> u16
    recommends
        0 <= i,
        i + 2 <= s.len(),
{
    (s[i] * 0x100 + s[i + 1]) as u16
}

/// Big-endian 64-bit word formed by `s[i .. i+8]`.
pub open spec fn be64_at(s: Seq<u8>, i: int) -> u64
    recommends
        0 <= i,
        i + 8 <= s.len(),
{
    (s[i] * 0x100_0000_0000_0000 + s[i + 1] * 0x1_0000_0000_0000 + s[i + 2] * 0x100_0000_0000 + s[
        i + 3
    ] * 0x1_0000_0000 + s[i + 4] * 0x100_0000 + s[i + 5] * 0x1_0000 + s[i + 6] * 0x100 + s[i + 7]) as u64
}

pub fn read_be64(v: &Vec<u8>, i: usize) -> (r: u64)
    requires
        i + 8 <= v@.len(),
    ensures
        r == be64_at(v@, i as int),
{
    let n: usize = v.len();
    assert(i + 8 <= n);
    let b0: u64 = v[i] as u64;
    let b1: u64 = v[i + 1] as u64;
    let b2: u64 = v[i + 2] as u64;
    let b3: u64 = v[i + 3] as u64;
    let b4: u64 = v[i + 4] as u64;
    let b5: u64 = v[i + 5] as u64;
    let b6: u64 = v[i + 6] as u64;
    let b7: u64 = v[i + 7] as u64;
    b0 * 0x100_0000_0000_0000 + b1 * 0x1_0000_0000_0000 + b2 * 0x100_0000_0000 + b3 * 0x1_0000_0000
        + b4 * 0x100_0000 + b5 * 0x1_0000 + b6 * 0x100 + b7
}

pub fn read_be32(v: &Vec<u8>, i: usize) -> (r: u32)
    requires
        i + 4 <= v@.len(),
    ensures
        r == be32_at(v@, i as int),
{
    let n: usize = v.len();
    assert(i + 4 <= n);
    let b0: u32 = v[i] as u32;
    let b1: u32 = v[i + 1] as u32;
    let b2: u32 = v[i + 2] as u32;
    let b3: u32 = v[i + 3] as u32;
    b0 * 0x100_0000 + b1 * 0x1_0000 + b2 * 0x100 + b3
}

pub fn read_be16(v: &Vec<u8>, i: usize) -> (r: u16)
    requires
        i + 2 <= v@.len(),
    ensures
        r == be16_at(v@, i as int),
{
    let n: usize = v.len();
    assert(i + 2 <= n);
    let b0: u16 = v[i] as u16;
    let b1: u16 = v[i + 1] as u16;
    b0 * 0x100 + b1
}

/// Appends all of `data` to `v`.
pub fn vec_extend(v: &mut Vec<u8>, data: &[u8])
    ensures
        final(v)@ == old(v)@ + data@,
{
    let mut i: usize = 0;
    while i < data.len()
        invariant
            i <= data@.len(),
            v@ == old(v)@ + data@.take(i as int),
        decreases data@.len() - i,
    {
        v.push(data[i]);
        i = i + 1;
        assert(data@.take(i as int) == data@.take(i as int - 1).push(data@[i as int - 1]));
    }
    assert(data@.take(data@.len() as int) == data@);
}

/// Drops the first `n` bytes of `v`, keeping the rest in order.
pub fn vec_consume(v: &mut Vec<u8>, n: usize)
    requires
        n <= old(v)@.len(),
    ensures
        final(v)@ == old(v)@.skip(n as int),
{
    let len: usize = v.len();
    let mut i: usize = 0;
    while i < len - n
        invariant
            n <= len,
            len == v@.len(),
            i <= len - n,
            forall|j: int| 0 <= j < i ==> v@[j] == old(v)@[j + n],
            forall|j: int| i <= j < len ==> v@[j] == old(v)@[j],
        decreases len - n - i,
    {
        let b: u8 = v[i + n];
        v.set(i, b);
        i = i + 1;
    }
    v.truncate(len - n);
    assert(v@ =~= old(v)@.skip(n as int));
}

/// Copies `v[start .. end]` out as a fresh vector.
pub fn vec_range(v: &Vec<u8>, start: usize, end: usize) -> (r: Vec<u8>)
    requires
        start <= end,
        end <= v@.len(),
    ensures
        r@ == v@.subrange(start as int, end as int),
{
    let mut r: Vec<u8> = Vec::new();
    let mut i: usize = start;
    while i < end
        invariant
            start <= i <= end,
            end <= v@.len(),
            r@ == v@.subrange(start as int, i as int),
        decreases end - i,
    {
        r.push(v[i]);
        i = i + 1;
        assert(v@.subrange(start as int, i as int) == v@.subrange(start as int, i as int - 1).push(
            v@[i as int - 1],
        ));
    }
    r
}

} // verus!
