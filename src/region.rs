//! A mutable memory map seen as a sequence of bytes, with verified
//! little-endian reads and writes of 64-bit words.

use memmap::MmapMut;
use vstd::prelude::*;

verus! {

#[verifier::external_type_specification]
#[verifier::external_body]
pub struct ExMmapMut(memmap::MmapMut);

/// The bytes that a memory map holds, in order.
pub uninterp spec fn map_bytes(m: MmapMut) -> Seq<u8>;

/// Relies on `MmapMut`'s `Deref` to `[u8]`: the slice covers the whole map.
#[verifier::external_body]
pub(crate) fn map_len(m: &MmapMut) -> (r: usize)
    ensures
        r == map_bytes(*m).len(),
{
    m.len()
}

/// The size of a map in bytes.
pub fn map_size(m: &MmapMut) -> (r: usize)
    ensures
        r == map_bytes(*m).len(),
{
    map_len(m)
}

/// Relies on `MmapMut`'s `Deref` to `[u8]`: indexing reads the byte at that position.
#[verifier::external_body]
pub(crate) fn map_read(m: &MmapMut, i: usize) -> (r: u8)
    requires
        i < map_bytes(*m).len(),
    ensures
        r == map_bytes(*m)[i as int],
{
    m[i]
}

/// Relies on `MmapMut`'s `DerefMut` to `[u8]`: indexing writes that one byte and no other.
#[verifier::external_body]
pub(crate) fn map_write(m: &mut MmapMut, i: usize, b: u8)
    requires
        i < map_bytes(*old(m)).len(),
    ensures
        map_bytes(*final(m)) == map_bytes(*old(m)).update(i as int, b),
{
    m[i] = b;
}

/// The unsigned integer stored little-endian in the eight bytes at `o`.
pub open spec fn le_u64(s: Seq<u8>, o: int) -> int {
    s[o] + 256 * (s[o + 1] + 256 * (s[o + 2] + 256 * (s[o + 3] + 256 * (s[o + 4] + 256 * (s[o
        + 5] + 256 * (s[o + 6] + 256 * s[o + 7]))))))
}

/// `a` and `b` have one length and agree outside `[lo, hi)`.
pub open spec fn same_outside(a: Seq<u8>, b: Seq<u8>, lo: int, hi: int) -> bool {
    &&& a.len() == b.len()
    &&& forall|k: int| 0 <= k < a.len() && !(lo <= k < hi) ==> #[trigger] a[k] == b[k]
}

/// A word outside the changed range reads the same.
pub proof fn lemma_le_u64_frame(a: Seq<u8>, b: Seq<u8>, lo: int, hi: int, o: int)
    requires
        same_outside(a, b, lo, hi),
        0 <= o,
        o + 8 <= a.len(),
        o + 8 <= lo || hi <= o,
    ensures
        le_u64(a, o) == le_u64(b, o),
{
    assert(a[o] == b[o]);
    assert(a[o + 1] == b[o + 1]);
    assert(a[o + 2] == b[o + 2]);
    assert(a[o + 3] == b[o + 3]);
    assert(a[o + 4] == b[o + 4]);
    assert(a[o + 5] == b[o + 5]);
    assert(a[o + 6] == b[o + 6]);
    assert(a[o + 7] == b[o + 7]);
}

/// Reads the little-endian word at byte offset `o`.
pub fn read_u64(m: &MmapMut, o: usize) -> (r: u64)
    requires
        o + 8 <= map_bytes(*m).len(),
    ensures
        r == le_u64(map_bytes(*m), o as int),
{
    // the map's length is a usize, so offsets below it cannot overflow
    let _len = map_len(m);
    let b0 = map_read(m, o) as u64;
    let b1 = map_read(m, o + 1) as u64;
    let b2 = map_read(m, o + 2) as u64;
    let b3 = map_read(m, o + 3) as u64;
    let b4 = map_read(m, o + 4) as u64;
    let b5 = map_read(m, o + 5) as u64;
    let b6 = map_read(m, o + 6) as u64;
    let b7 = map_read(m, o + 7) as u64;
    let mut r: u64 = b7;
    r = b6 + 256 * r;
    r = b5 + 256 * r;
    r = b4 + 256 * r;
    r = b3 + 256 * r;
    r = b2 + 256 * r;
    r = b1 + 256 * r;
    r = b0 + 256 * r;
    r
}

proof fn lemma_split_byte(v: int)
    requires
        0 <= v,
    ensures
        v == v % 256 + 256 * (v / 256),
        0 <= v % 256 < 256,
        0 <= v / 256 <= v,
{
}

/// Writes `v` little-endian at byte offset `o`, leaving every other byte as it was.
pub fn write_u64(m: &mut MmapMut, o: usize, v: u64)
    requires
        o + 8 <= map_bytes(*old(m)).len(),
    ensures
        same_outside(map_bytes(*old(m)), map_bytes(*final(m)), o as int, o + 8),
        le_u64(map_bytes(*final(m)), o as int) == v,
{
    // the map's length is a usize, so offsets below it cannot overflow
    let _len = map_len(m);
    let v1 = v / 256;
    let v2 = v1 / 256;
    let v3 = v2 / 256;
    let v4 = v3 / 256;
    let v5 = v4 / 256;
    let v6 = v5 / 256;
    let v7 = v6 / 256;
    proof {
        lemma_split_byte(v as int);
        lemma_split_byte(v1 as int);
        lemma_split_byte(v2 as int);
        lemma_split_byte(v3 as int);
        lemma_split_byte(v4 as int);
        lemma_split_byte(v5 as int);
        lemma_split_byte(v6 as int);
        lemma_split_byte(v7 as int);
        assert(v7 < 256);
    }
    map_write(m, o, (v % 256) as u8);
    map_write(m, o + 1, (v1 % 256) as u8);
    map_write(m, o + 2, (v2 % 256) as u8);
    map_write(m, o + 3, (v3 % 256) as u8);
    map_write(m, o + 4, (v4 % 256) as u8);
    map_write(m, o + 5, (v5 % 256) as u8);
    map_write(m, o + 6, (v6 % 256) as u8);
    map_write(m, o + 7, (v7 % 256) as u8);
    let ghost s = map_bytes(*m);
    assert(s[o + 7] == v7);
    assert(le_u64(s, o as int) == v);
}

} // verus!
