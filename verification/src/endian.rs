//! Byte order and endian-aware conversion between integers and raw bytes.
//!
//! TIFF data declares its own byte order, so every primitive value inside an
//! IFD is read and written through these helpers.

use vstd::prelude::*;

verus! {

/// The byte order of the TIFF data being decoded or encoded.
#[derive(Clone, Copy, Debug, PartialEq, Eq, Structural)]
pub enum Endian {
    Big,
    Little,
}

/// The value of two bytes read in the given byte order.
pub open spec fn u16_val(e: Endian, b0: u8, b1: u8) -> u16 {
    match e {
        Endian::Big => (b0 as u16 * 256 + b1 as u16) as u16,
        Endian::Little => (b1 as u16 * 256 + b0 as u16) as u16,
    }
}

/// The value of four bytes read in the given byte order.
pub open spec fn u32_val(e: Endian, b0: u8, b1: u8, b2: u8, b3: u8) -> u32 {
    match e {
        Endian::Big => (b0 as u32 * 0x1000000 + b1 as u32 * 0x10000 + b2 as u32 * 0x100
            + b3 as u32) as u32,
        Endian::Little => (b3 as u32 * 0x1000000 + b2 as u32 * 0x10000 + b1 as u32 * 0x100
            + b0 as u32) as u32,
    }
}

/// The two bytes that encode a 16-bit value in the given byte order.
pub open spec fn u16_bytes(e: Endian, v: u16) -> Seq<u8> {
    match e {
        Endian::Big => seq![(v / 256) as u8, (v % 256) as u8],
        Endian::Little => seq![(v % 256) as u8, (v / 256) as u8],
    }
}

/// The four bytes that encode a 32-bit value in the given byte order.
pub open spec fn u32_bytes(e: Endian, v: u32) -> Seq<u8> {
    match e {
        Endian::Big => seq![
            (v / 0x1000000) as u8,
            ((v / 0x10000) % 0x100) as u8,
            ((v / 0x100) % 0x100) as u8,
            (v % 0x100) as u8,
        ],
        Endian::Little => seq![
            (v % 0x100) as u8,
            ((v / 0x100) % 0x100) as u8,
            ((v / 0x10000) % 0x100) as u8,
            (v / 0x1000000) as u8,
        ],
    }
}

/// Read a 16-bit value from two bytes in the given byte order.
pub fn u16_from_bytes(e: &Endian, b0: u8, b1: u8) -> (r: u16)
    ensures
        r == u16_val(*e, b0, b1),
{
    match e {
        Endian::Big => b0 as u16 * 256 + b1 as u16,
        Endian::Little => b1 as u16 * 256 + b0 as u16,
    }
}

/// Read a 32-bit value from four bytes in the given byte order.
pub fn u32_from_bytes(e: &Endian, b0: u8, b1: u8, b2: u8, b3: u8) -> (r: u32)
    ensures
        r == u32_val(*e, b0, b1, b2, b3),
{
    match e {
        Endian::Big => b0 as u32 * 0x1000000 + b1 as u32 * 0x10000 + b2 as u32 * 0x100
            + b3 as u32,
        Endian::Little => b3 as u32 * 0x1000000 + b2 as u32 * 0x10000 + b1 as u32 * 0x100
            + b0 as u32,
    }
}

/// Append the two bytes of a 16-bit value to a buffer in the given byte order.
pub fn push_u16_bytes(out: &mut Vec<u8>, e: &Endian, v: u16)
    ensures
        final(out)@ == old(out)@ + u16_bytes(*e, v),
{
    match e {
        Endian::Big => {
            out.push((v / 256) as u8);
            out.push((v % 256) as u8);
        },
        Endian::Little => {
            out.push((v % 256) as u8);
            out.push((v / 256) as u8);
        },
    }
    assert(out@ =~= old(out)@ + u16_bytes(*e, v));
}

/// Append the four bytes of a 32-bit value to a buffer in the given byte order.
pub fn push_u32_bytes(out: &mut Vec<u8>, e: &Endian, v: u32)
    ensures
        final(out)@ == old(out)@ + u32_bytes(*e, v),
{
    match e {
        Endian::Big => {
            out.push((v / 0x1000000) as u8);
            out.push(((v / 0x10000) % 0x100) as u8);
            out.push(((v / 0x100) % 0x100) as u8);
            out.push((v % 0x100) as u8);
        },
        Endian::Little => {
            out.push((v % 0x100) as u8);
            out.push(((v / 0x100) % 0x100) as u8);
            out.push(((v / 0x10000) % 0x100) as u8);
            out.push((v / 0x1000000) as u8);
        },
    }
    assert(out@ =~= old(out)@ + u32_bytes(*e, v));
}

/// Reading back the two bytes of an encoded 16-bit value recovers the value.
pub proof fn lemma_u16_roundtrip(e: Endian, v: u16)
    ensures
        u16_val(e, u16_bytes(e, v)[0], u16_bytes(e, v)[1]) == v,
{
}

/// Reading back the four bytes of an encoded 32-bit value recovers the value.
pub proof fn lemma_u32_roundtrip(e: Endian, v: u32)
    ensures
        u32_val(
            e,
            u32_bytes(e, v)[0],
            u32_bytes(e, v)[1],
            u32_bytes(e, v)[2],
            u32_bytes(e, v)[3],
        ) == v,
{
}

} // verus!
