//! Big-endian encoding of 32-bit numbers, as the wire format writes them.

use byteorder::{BigEndian, ByteOrder, WriteBytesExt};
use vstd::prelude::*;

verus! {

/// The number that four bytes denote when read most significant first.
pub open spec fn be_u32_value(b: Seq<u8>) -> int {
    b[0] * 0x100_0000 + b[1] * 0x1_0000 + b[2] * 0x100 + b[3]
}

/// The four bytes of `v`, most significant first.
pub open spec fn be_u32_bytes(v: u32) -> Seq<u8> {
    seq![
        (v / 0x100_0000) as u8,
        ((v / 0x1_0000) % 0x100) as u8,
        ((v / 0x100) % 0x100) as u8,
        (v % 0x100) as u8,
    ]
}

/// `byteorder::BigEndian::read_u32` (from the `ByteOrder` trait): the first four
/// bytes of `buf` read as a big-endian number. The crate panics on a buffer of
/// fewer than four bytes, which `requires` leaves out.
#[verifier::external_body]
pub(crate) fn read_u32_be(buf: &[u8]) -> (v: u32)
    requires
        buf@.len() >= 4,
    ensures
        v == be_u32_value(buf@),
{
    BigEndian::read_u32(buf)
}

/// `byteorder::WriteBytesExt::write_u32::<BigEndian>` on a `Vec<u8>`: appends the
/// four big-endian bytes of `v`. Writing into a vector never fails, so the
/// `io::Result` it returns carries nothing.
#[verifier::external_body]
pub(crate) fn append_u32_be(out: &mut Vec<u8>, v: u32)
    ensures
        final(out)@ == old(out)@ + be_u32_bytes(v),
{
    let _ = out.write_u32::<BigEndian>(v);
}

/// Reading back the four bytes written for `v` gives `v`.
pub proof fn lemma_be_u32_roundtrip(v: u32)
    ensures
        be_u32_value(be_u32_bytes(v)) == v,
{
    let x0: u32 = v / 0x100_0000;
    let x1: u32 = (v / 0x1_0000) % 0x100;
    let x2: u32 = (v / 0x100) % 0x100;
    let x3: u32 = v % 0x100;
    assert(x0 * 0x100_0000 + x1 * 0x1_0000 + x2 * 0x100 + x3 == v && x0 < 0x100) by (bit_vector)
        requires
            x0 == v / 0x100_0000,
            x1 == (v / 0x1_0000) % 0x100,
            x2 == (v / 0x100) % 0x100,
            x3 == v % 0x100,
    ;
    let b = be_u32_bytes(v);
    assert(b[0] == x0 && b[1] == x1 && b[2] == x2 && b[3] == x3);
}

/// Any four bytes are the encoding of the number they denote.
pub proof fn lemma_be_u32_bytes_of_value(b: Seq<u8>)
    requires
        b.len() == 4,
    ensures
        0 <= be_u32_value(b) <= u32::MAX,
        be_u32_bytes(be_u32_value(b) as u32) == b,
{
    let b0: u32 = b[0] as u32;
    let b1: u32 = b[1] as u32;
    let b2: u32 = b[2] as u32;
    let b3: u32 = b[3] as u32;
    assert(b0 * 0x100_0000 + b1 * 0x1_0000 + b2 * 0x100 + b3 <= 0xffff_ffff) by (bit_vector)
        requires
            b0 < 0x100,
            b1 < 0x100,
            b2 < 0x100,
            b3 < 0x100,
    ;
    let v: u32 = (b0 * 0x100_0000 + b1 * 0x1_0000 + b2 * 0x100 + b3) as u32;
    assert(v / 0x100_0000 == b0 && (v / 0x1_0000) % 0x100 == b1 && (v / 0x100) % 0x100 == b2
        && v % 0x100 == b3) by (bit_vector)
        requires
            b0 < 0x100,
            b1 < 0x100,
            b2 < 0x100,
            b3 < 0x100,
            v == b0 * 0x100_0000 + b1 * 0x1_0000 + b2 * 0x100 + b3,
    ;
    assert(be_u32_bytes(v) =~= b);
}

/// The four bytes written for `v` are its base-256 digits, most significant
/// first.
pub proof fn lemma_be_u32_bytes_are_digits(v: u32)
    ensures
        be_u32_bytes(v).len() == 4,
        be_u32_bytes(v)[0] * 0x100_0000 + be_u32_bytes(v)[1] * 0x1_0000 + be_u32_bytes(v)[2]
            * 0x100 + be_u32_bytes(v)[3] == v,
{
    lemma_be_u32_roundtrip(v);
}

} // verus!
