//! Little-endian 16- and 32-bit integer fields, as BMP headers store them.

use vstd::prelude::*;
use vstd::arithmetic::div_mod::lemma_fundamental_div_mod;
use vstd::arithmetic::div_mod::lemma_fundamental_div_mod_converse;

verus! {

/// Value of two bytes read as a little-endian 16-bit integer.
pub open spec fn le16(b0: u8, b1: u8) -> int {
    b0 + 0x100 * b1
}

/// Value of four bytes read as a little-endian 32-bit integer.
pub open spec fn le32(b0: u8, b1: u8, b2: u8, b3: u8) -> int {
    b0 + 0x100 * b1 + 0x1_0000 * b2 + 0x100_0000 * b3
}

/// Byte `k` (0 or 1) of the little-endian encoding of a 16-bit value.
pub open spec fn byte16(v: u16, k: int) -> u8 {
    if k == 0 {
        (v % 0x100) as u8
    } else {
        ((v / 0x100) % 0x100) as u8
    }
}

/// Byte `k` (0 to 3) of the little-endian encoding of a 32-bit value.
pub open spec fn byte32(v: u32, k: int) -> u8 {
    if k == 0 {
        (v % 0x100) as u8
    } else if k == 1 {
        ((v / 0x100) % 0x100) as u8
    } else if k == 2 {
        ((v / 0x100 / 0x100) % 0x100) as u8
    } else {
        ((v / 0x100 / 0x100 / 0x100) % 0x100) as u8
    }
}

/// Reading two bytes and re-encoding the value yields the same two bytes.
pub proof fn lemma_le16_of_bytes(b0: u8, b1: u8)
    ensures
        0 <= le16(b0, b1) < 0x1_0000,
        byte16(le16(b0, b1) as u16, 0) == b0,
        byte16(le16(b0, b1) as u16, 1) == b1,
{
    let v = le16(b0, b1);
    lemma_fundamental_div_mod_converse(v, 0x100, b1 as int, b0 as int);
    lemma_fundamental_div_mod_converse(b1 as int, 0x100, 0, b1 as int);
    assert(v as u16 == v);
}

/// Reading four bytes and re-encoding the value yields the same four bytes.
pub proof fn lemma_le32_of_bytes(b0: u8, b1: u8, b2: u8, b3: u8)
    ensures
        0 <= le32(b0, b1, b2, b3) < 0x1_0000_0000,
        byte32(le32(b0, b1, b2, b3) as u32, 0) == b0,
        byte32(le32(b0, b1, b2, b3) as u32, 1) == b1,
        byte32(le32(b0, b1, b2, b3) as u32, 2) == b2,
        byte32(le32(b0, b1, b2, b3) as u32, 3) == b3,
{
    let v = le32(b0, b1, b2, b3);
    let q1 = b1 + 0x100 * b2 + 0x1_0000 * b3;
    let q2 = b2 + 0x100 * b3;
    lemma_fundamental_div_mod_converse(v, 0x100, q1, b0 as int);
    lemma_fundamental_div_mod_converse(q1, 0x100, q2, b1 as int);
    lemma_fundamental_div_mod_converse(q2, 0x100, b3 as int, b2 as int);
    lemma_fundamental_div_mod_converse(b3 as int, 0x100, 0, b3 as int);
    assert(v as u32 == v);
}

/// Encoding a 16-bit value and reading the bytes back yields the value.
pub proof fn lemma_bytes_of_le16(v: u16)
    ensures
        le16(byte16(v, 0), byte16(v, 1)) == v,
{
    lemma_fundamental_div_mod(v as int, 0x100);
}

/// Encoding a 32-bit value and reading the bytes back yields the value.
pub proof fn lemma_bytes_of_le32(v: u32)
    ensures
        le32(byte32(v, 0), byte32(v, 1), byte32(v, 2), byte32(v, 3)) == v,
{
    lemma_fundamental_div_mod(v as int, 0x100);
    lemma_fundamental_div_mod(v as int / 0x100, 0x100);
    lemma_fundamental_div_mod(v as int / 0x100 / 0x100, 0x100);
    assert(v / 0x100 / 0x100 / 0x100 % 0x100 == v / 0x100 / 0x100 / 0x100) by {
        lemma_fundamental_div_mod_converse(
            v as int / 0x100 / 0x100 / 0x100,
            0x100,
            0,
            v as int / 0x100 / 0x100 / 0x100,
        );
    }
}

/// Reads a little-endian 16-bit value from two bytes.
pub fn read_u16(b0: u8, b1: u8) -> (r: u16)
    ensures
        r == le16(b0, b1),
{
    b0 as u16 + 0x100 * (b1 as u16)
}

/// Reads a little-endian 32-bit value from four bytes.
pub fn read_u32(b0: u8, b1: u8, b2: u8, b3: u8) -> (r: u32)
    ensures
        r == le32(b0, b1, b2, b3),
{
    b0 as u32 + 0x100 * (b1 as u32) + 0x1_0000 * (b2 as u32) + 0x100_0000 * (b3 as u32)
}

/// Appends the two little-endian bytes of a 16-bit value.
pub fn push_u16(out: &mut Vec<u8>, v: u16)
    ensures
        final(out)@ == old(out)@ + seq![byte16(v, 0), byte16(v, 1)],
{
    out.push((v % 0x100) as u8);
    out.push((v / 0x100 % 0x100) as u8);
    proof {
        assert(out@ =~= old(out)@ + seq![byte16(v, 0), byte16(v, 1)]);
    }
}

/// Appends the four little-endian bytes of a 32-bit value.
pub fn push_u32(out: &mut Vec<u8>, v: u32)
    ensures
        final(out)@ == old(out)@ + seq![byte32(v, 0), byte32(v, 1), byte32(v, 2), byte32(v, 3)],
{
    out.push((v % 0x100) as u8);
    out.push((v / 0x100 % 0x100) as u8);
    out.push((v / 0x100 / 0x100 % 0x100) as u8);
    out.push((v / 0x100 / 0x100 / 0x100 % 0x100) as u8);
    proof {
        assert(out@ =~= old(out)@ + seq![byte32(v, 0), byte32(v, 1), byte32(v, 2), byte32(v, 3)]);
    }
}

} // verus!
