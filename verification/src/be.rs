//! Big-endian integer fields, read and written through `byteorder`.

use byteorder::{BigEndian, ByteOrder};
use vstd::prelude::*;

verus! {

/// Value of the big-endian `u16` stored at `s[i..i+2]`.
pub open spec fn be16(s: Seq<u8>, i: int) -> u16 {
    (s[i] as int * 0x100 + s[i + 1] as int) as u16
}

/// Value of the big-endian `u32` stored at `s[i..i+4]`.
pub open spec fn be32(s: Seq<u8>, i: int) -> u32 {
    (s[i] as int * 0x100_0000 + s[i + 1] as int * 0x1_0000 + s[i + 2] as int * 0x100
        + s[i + 3] as int) as u32
}

/// Two's-complement reading of a `u16`.
pub open spec fn i16_of(u: u16) -> i16 {
    if u < 0x8000 {
        u as i16
    } else {
        (u as int - 0x1_0000) as i16
    }
}

/// Two's-complement reading of a `u32`.
pub open spec fn i32_of(u: u32) -> i32 {
    if u < 0x8000_0000 {
        u as i32
    } else {
        (u as int - 0x1_0000_0000) as i32
    }
}

/// Bit pattern of an `i16`.
pub open spec fn u16_of(v: i16) -> u16 {
    if v >= 0 {
        v as u16
    } else {
        (v as int + 0x1_0000) as u16
    }
}

/// Big-endian bytes of a `u16`.
pub open spec fn be16_bytes(v: u16) -> Seq<u8> {
    seq![(v / 0x100) as u8, (v % 0x100) as u8]
}

/// Big-endian bytes of a `u32`.
pub open spec fn be32_bytes(v: u32) -> Seq<u8> {
    seq![
        (v / 0x100_0000) as u8,
        ((v / 0x1_0000) % 0x100) as u8,
        ((v / 0x100) % 0x100) as u8,
        (v % 0x100) as u8,
    ]
}

/// `s` with `t` written over it starting at `pos`.
pub open spec fn splice(s: Seq<u8>, pos: int, t: Seq<u8>) -> Seq<u8> {
    s.subrange(0, pos) + t + s.subrange(pos + t.len(), s.len() as int)
}

pub proof fn lemma_be16_roundtrip(v: u16)
    ensures
        be16(be16_bytes(v), 0) == v,
{
    let b = be16_bytes(v);
    assert(b[0] as int * 0x100 + b[1] as int == v) by (nonlinear_arith)
        requires
            b[0] == (v / 0x100) as u8,
            b[1] == (v % 0x100) as u8,
            v < 0x1_0000,
    ;
}

pub proof fn lemma_be32_roundtrip(v: u32)
    ensures
        be32(be32_bytes(v), 0) == v,
{
    let b = be32_bytes(v);
    assert(b[0] as int * 0x100_0000 + b[1] as int * 0x1_0000 + b[2] as int * 0x100 + b[3] as int
        == v) by (nonlinear_arith)
        requires
            b[0] == (v / 0x100_0000) as u8,
            b[1] == ((v / 0x1_0000) % 0x100) as u8,
            b[2] == ((v / 0x100) % 0x100) as u8,
            b[3] == (v % 0x100) as u8,
            v < 0x1_0000_0000,
    ;
}

/// Reading a field back right after writing it gives the written value.
pub proof fn lemma_read_after_write32(s: Seq<u8>, pos: int, v: u32)
    requires
        0 <= pos,
        pos + 4 <= s.len(),
    ensures
        be32(splice(s, pos, be32_bytes(v)), pos) == v,
        splice(s, pos, be32_bytes(v)).len() == s.len(),
{
    let t = splice(s, pos, be32_bytes(v));
    lemma_be32_roundtrip(v);
    assert(t[pos] == be32_bytes(v)[0]);
    assert(t[pos + 1] == be32_bytes(v)[1]);
    assert(t[pos + 2] == be32_bytes(v)[2]);
    assert(t[pos + 3] == be32_bytes(v)[3]);
}

/// Reading a 16-bit field back right after writing it gives the written
/// value.
pub proof fn lemma_read_after_write16(s: Seq<u8>, pos: int, v: u16)
    requires
        0 <= pos,
        pos + 2 <= s.len(),
    ensures
        be16(splice(s, pos, be16_bytes(v)), pos) == v,
        splice(s, pos, be16_bytes(v)).len() == s.len(),
{
    let t = splice(s, pos, be16_bytes(v));
    lemma_be16_roundtrip(v);
    assert(t[pos] == be16_bytes(v)[0]);
    assert(t[pos + 1] == be16_bytes(v)[1]);
}

/// `BigEndian::read_u16` on `buf[pos..]`: the big-endian value of the two
/// bytes at `pos`.
#[verifier::external_body]
pub(crate) fn read_u16_at(buf: &[u8], pos: usize) -> (r: u16)
    requires
        pos + 2 <= buf@.len(),
    ensures
        r == be16(buf@, pos as int),
{
    BigEndian::read_u16(&buf[pos..])
}

/// `BigEndian::read_i16` on `buf[pos..]`: the two bytes at `pos` read as a
/// big-endian two's-complement integer.
#[verifier::external_body]
pub(crate) fn read_i16_at(buf: &[u8], pos: usize) -> (r: i16)
    requires
        pos + 2 <= buf@.len(),
    ensures
        r == i16_of(be16(buf@, pos as int)),
{
    BigEndian::read_i16(&buf[pos..])
}

/// `BigEndian::read_u32` on `buf[pos..]`: the big-endian value of the four
/// bytes at `pos`.
#[verifier::external_body]
pub(crate) fn read_u32_at(buf: &[u8], pos: usize) -> (r: u32)
    requires
        pos + 4 <= buf@.len(),
    ensures
        r == be32(buf@, pos as int),
{
    BigEndian::read_u32(&buf[pos..])
}

/// `BigEndian::read_i32` on `buf[pos..]`: the four bytes at `pos` read as a
/// big-endian two's-complement integer.
#[verifier::external_body]
pub(crate) fn read_i32_at(buf: &[u8], pos: usize) -> (r: i32)
    requires
        pos + 4 <= buf@.len(),
    ensures
        r == i32_of(be32(buf@, pos as int)),
{
    BigEndian::read_i32(&buf[pos..])
}

/// `BigEndian::write_u16` on `buf[pos..pos+2]`: those two bytes become the
/// big-endian bytes of `v`, nothing else changes.
#[verifier::external_body]
pub(crate) fn write_u16_at(buf: &mut Vec<u8>, pos: usize, v: u16)
    requires
        pos + 2 <= old(buf)@.len(),
    ensures
        final(buf)@ == splice(old(buf)@, pos as int, be16_bytes(v)),
{
    BigEndian::write_u16(&mut buf[pos..pos + 2], v)
}

/// `BigEndian::write_i16` on `buf[pos..pos+2]`: those two bytes become the
/// big-endian two's-complement bytes of `v`, nothing else changes.
#[verifier::external_body]
pub(crate) fn write_i16_at(buf: &mut Vec<u8>, pos: usize, v: i16)
    requires
        pos + 2 <= old(buf)@.len(),
    ensures
        final(buf)@ == splice(old(buf)@, pos as int, be16_bytes(u16_of(v))),
{
    BigEndian::write_i16(&mut buf[pos..pos + 2], v)
}

/// `BigEndian::write_u32` on `buf[pos..pos+4]`: those four bytes become the
/// big-endian bytes of `v`, nothing else changes.
#[verifier::external_body]
pub(crate) fn write_u32_at(buf: &mut Vec<u8>, pos: usize, v: u32)
    requires
        pos + 4 <= old(buf)@.len(),
    ensures
        final(buf)@ == splice(old(buf)@, pos as int, be32_bytes(v)),
{
    BigEndian::write_u32(&mut buf[pos..pos + 4], v)
}

/// Append the big-endian bytes of `v`.
pub fn push_be16(out: &mut Vec<u8>, v: u16)
    ensures
        final(out)@ == old(out)@ + be16_bytes(v),
{
    out.push((v / 0x100) as u8);
    out.push((v % 0x100) as u8);
    proof {
        assert(out@ =~= old(out)@ + be16_bytes(v));
    }
}

/// Append the big-endian bytes of `v`.
pub fn push_be32(out: &mut Vec<u8>, v: u32)
    ensures
        final(out)@ == old(out)@ + be32_bytes(v),
{
    out.push((v / 0x100_0000) as u8);
    out.push(((v / 0x1_0000) % 0x100) as u8);
    out.push(((v / 0x100) % 0x100) as u8);
    out.push((v % 0x100) as u8);
    proof {
        assert(out@ =~= old(out)@ + be32_bytes(v));
    }
}

} // verus!
