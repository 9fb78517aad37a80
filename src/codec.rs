//! Little-endian integer fields inside byte sequences.
use vstd::prelude::*;

verus! {

/// The value of the little-endian `u16` made of `b0` (low) and `b1` (high).
pub open spec fn le16(b0: u8, b1: u8) -> u16 {
    (b0 as int + 256 * b1 as int) as u16
}

/// The value of the little-endian `u32` stored at `b[off..off + 4]`.
pub open spec fn le32(b: Seq<u8>, off: int) -> u32 {
    (b[off] as int + 256 * b[off + 1] as int + 65536 * b[off + 2] as int + 16777216 * b[off
        + 3] as int) as u32
}

/// The two little-endian bytes of `v`.
pub open spec fn u16_bytes(v: u16) -> Seq<u8> {
    seq![(v % 256) as u8, (v / 256) as u8]
}

/// The four little-endian bytes of `v`.
pub open spec fn u32_bytes(v: u32) -> Seq<u8> {
    seq![(v % 256) as u8, ((v / 256) % 256) as u8, ((v / 65536) % 256) as u8, (v / 16777216) as u8]
}

/// `b` with the bytes from `off` on replaced by `d`.
pub open spec fn splice(b: Seq<u8>, off: int, d: Seq<u8>) -> Seq<u8> {
    b.subrange(0, off) + d + b.subrange(off + d.len(), b.len() as int)
}

pub proof fn lemma_u16_round_trip(v: u16)
    ensures
        le16(u16_bytes(v)[0], u16_bytes(v)[1]) == v,
{
}

pub proof fn lemma_u32_round_trip(v: u32)
    ensures
        le32(u32_bytes(v), 0) == v,
        u32_bytes(v).len() == 4,
{
    let b = u32_bytes(v);
    let x = v as int;
    assert(x == x % 256 + 256 * ((x / 256) % 256) + 65536 * ((x / 65536) % 256) + 16777216 * (x
        / 16777216)) by (nonlinear_arith)
        requires
            0 <= x < 0x1_0000_0000,
    ;
}

/// The sequence `v` read back after it was written as bytes is the same value.
pub proof fn lemma_le32_of_bytes(b: Seq<u8>, off: int, v: u32)
    requires
        0 <= off,
        off + 4 <= b.len(),
        b.subrange(off, off + 4) == u32_bytes(v),
    ensures
        le32(b, off) == v,
{
    lemma_u32_round_trip(v);
    assert(b[off] == b.subrange(off, off + 4)[0]);
    assert(b[off + 1] == b.subrange(off, off + 4)[1]);
    assert(b[off + 2] == b.subrange(off, off + 4)[2]);
    assert(b[off + 3] == b.subrange(off, off + 4)[3]);
}

pub fn read_u16(b: &[u8], off: usize) -> (r: u16)
    requires
        off + 2 <= b@.len(),
    ensures
        r == le16(b@[off as int], b@[off + 1]),
{
    b[off] as u16 + (b[off + 1] as u16) * 256
}

pub fn read_u32(b: &[u8], off: usize) -> (r: u32)
    requires
        off + 4 <= b@.len(),
    ensures
        r == le32(b@, off as int),
{
    b[off] as u32 + (b[off + 1] as u32) * 256 + (b[off + 2] as u32) * 65536 + (b[off + 3] as u32)
        * 16777216
}

pub fn lo_byte(v: u16) -> (r: u8)
    ensures
        r == u16_bytes(v)[0],
{
    (v % 256) as u8
}

pub fn hi_byte(v: u16) -> (r: u8)
    ensures
        r == u16_bytes(v)[1],
{
    (v / 256) as u8
}

pub fn u32_to_bytes(v: u32) -> (r: [u8; 4])
    ensures
        r@ == u32_bytes(v),
{
    let r = [(v % 256) as u8, ((v / 256) % 256) as u8, ((v / 65536) % 256) as u8, (v / 16777216) as u8];
    assert(r@ =~= u32_bytes(v));
    r
}

} // verus!
