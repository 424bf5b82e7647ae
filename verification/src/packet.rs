//! Packets: what a connection sends over the tunnels, and their wire format.
//!
//! A packet on the wire is a header of `PACKET_HEAD_SIZE` bytes (the kind, the
//! connection id, the packet id and the data length, the three numbers big-endian)
//! followed by the data.

use crate::wire::{
    append_u32_be, be_u32_bytes, be_u32_value, lemma_be_u32_bytes_of_value, lemma_be_u32_roundtrip,
    read_u32_be,
};
use vstd::prelude::*;
use vstd::slice::slice_subrange;
use vstd::slice::slice_to_vec;
use vstd::string::StringSliceAdditionalSpecFns;
use vstd::utf8::{decode_utf8, encode_utf8, valid_utf8};

verus! {

/// The size in bytes of a packet header on the wire.
pub const PACKET_HEAD_SIZE: usize = 13;

/// What a packet asks of the receiving connection.
#[derive(Clone, Copy, Debug, PartialEq, Eq, Structural)]
pub enum PacketKind {
    /// Opens a connection; the data is the destination address.
    Connect,
    /// Closes a connection.
    Disconnect,
    /// Carries a piece of the byte stream.
    Data,
}

/// The byte that stands for each kind on the wire.
pub open spec fn kind_byte(kind: PacketKind) -> u8 {
    match kind {
        PacketKind::Connect => 1,
        PacketKind::Disconnect => 2,
        PacketKind::Data => 3,
    }
}

/// The kind that a header byte names, if any.
pub open spec fn kind_of_byte(b: u8) -> Option<PacketKind> {
    if b == 1 {
        Some(PacketKind::Connect)
    } else if b == 2 {
        Some(PacketKind::Disconnect)
    } else if b == 3 {
        Some(PacketKind::Data)
    } else {
        None
    }
}

impl PacketKind {
    /// The byte that stands for this kind on the wire.
    pub fn to_byte(self) -> (b: u8)
        ensures
            b == kind_byte(self),
    {
        match self {
            PacketKind::Connect => 1,
            PacketKind::Disconnect => 2,
            PacketKind::Data => 3,
        }
    }

    /// The kind that a header byte names; `None` for a byte that names none.
    pub fn from_byte(b: u8) -> (k: Option<PacketKind>)
        ensures
            k == kind_of_byte(b),
    {
        if b == 1 {
            Some(PacketKind::Connect)
        } else if b == 2 {
            Some(PacketKind::Disconnect)
        } else if b == 3 {
            Some(PacketKind::Data)
        } else {
            None
        }
    }
}

/// The header of a packet as a reader finds it on the wire.
#[derive(Clone, Copy, Debug, PartialEq, Eq, Structural)]
pub struct PacketHeader {
    pub kind: PacketKind,
    pub connection_id: u32,
    pub packet_id: u32,
    pub data_length: u32,
}

/// The header bytes of a packet with these fields.
pub open spec fn header_bytes(kind: PacketKind, connection_id: u32, packet_id: u32, data_length: u32) -> Seq<u8> {
    seq![kind_byte(kind)] + be_u32_bytes(connection_id) + be_u32_bytes(packet_id) + be_u32_bytes(data_length)
}

/// The header that `PACKET_HEAD_SIZE` bytes denote: `None` where the first byte
/// names no kind.
pub open spec fn parse_header(b: Seq<u8>) -> Option<PacketHeader> {
    match kind_of_byte(b[0]) {
        Some(kind) => Some(
            PacketHeader {
                kind,
                connection_id: be_u32_value(b.subrange(1, 5)) as u32,
                packet_id: be_u32_value(b.subrange(5, 9)) as u32,
                data_length: be_u32_value(b.subrange(9, 13)) as u32,
            },
        ),
        None => None,
    }
}

impl PacketHeader {
    /// Reads a header from the `PACKET_HEAD_SIZE` bytes that begin a packet.
    /// Returns `None` where the first byte names no kind.
    pub fn parse(header: &[u8]) -> (r: Option<PacketHeader>)
        requires
            header@.len() == PACKET_HEAD_SIZE,
        ensures
            r == parse_header(header@),
    {
        let kind = PacketKind::from_byte(header[0]);
        match kind {
            Some(kind) => {
                let connection_id = read_u32_be(slice_subrange(header, 1, 5));
                let packet_id = read_u32_be(slice_subrange(header, 5, 9));
                let data_length = read_u32_be(slice_subrange(header, 9, 13));
                Some(PacketHeader { kind, connection_id, packet_id, data_length })
            },
            None => None,
        }
    }
}

/// `std::str::from_utf8`: the text that `bytes` encode in UTF-8; `None` where they
/// are not valid UTF-8 (the function's `Utf8Error`).
#[verifier::external_body]
fn str_from_utf8(bytes: &[u8]) -> (r: Option<&str>)
    ensures
        r is Some <==> valid_utf8(bytes@),
        r matches Some(s) ==> s.spec_bytes() == bytes@,
{
    match std::str::from_utf8(bytes) {
        Ok(s) => Some(s),
        Err(_) => None,
    }
}

/// The bytes that `Packet::pack` keeps for its later calls. Only `pack` fills it.
#[derive(Debug)]
pub struct PackCache {
    bytes: Option<Vec<u8>>,
}

impl PackCache {
    /// The bytes kept, if any.
    pub closed spec fn kept(&self) -> Option<Seq<u8>> {
        match self.bytes {
            Some(c) => Some(c@),
            None => None,
        }
    }

    /// A cache that keeps nothing.
    pub(crate) fn empty() -> (c: PackCache)
        ensures
            c.kept() is None,
    {
        PackCache { bytes: None }
    }

    /// The bytes kept, if any.
    pub fn bytes(&self) -> (r: Option<&[u8]>)
        ensures
            match r {
                Some(b) => self.kept() == Some(b@),
                None => self.kept() is None,
            },
    {
        match &self.bytes {
            Some(c) => Some(c.as_slice()),
            None => None,
        }
    }
}

/// A packet of one connection.
#[derive(Debug)]
pub struct Packet {
    pub kind: PacketKind,
    pub connection_id: u32,
    pub packet_id: u32,
    pub data_length: u32,
    pub data: Option<Vec<u8>>,
    /// The bytes kept from the first call of `pack`, handed back by later calls.
    pub cache: PackCache,
}

impl Packet {
    /// The data the packet carries; empty where it carries none.
    pub open spec fn data_view(&self) -> Seq<u8> {
        match self.data {
            Some(d) => d@,
            None => Seq::empty(),
        }
    }

    /// The bytes of this packet on the wire: its header, then its data.
    pub open spec fn encoding(&self) -> Seq<u8> {
        header_bytes(self.kind, self.connection_id, self.packet_id, self.data_length)
            + self.data_view()
    }

    /// The header of this packet.
    pub open spec fn header(&self) -> PacketHeader {
        PacketHeader {
            kind: self.kind,
            connection_id: self.connection_id,
            packet_id: self.packet_id,
            data_length: self.data_length,
        }
    }

    /// The bytes kept from the last call of `pack`, if there was one.
    pub open spec fn cached(&self) -> Option<Seq<u8>> {
        self.cache.kept()
    }

    /// The bytes of this packet on the wire. The first call encodes the packet and
    /// keeps the bytes; later calls hand back the kept bytes.
    pub fn pack(&mut self) -> (r: &[u8])
        ensures
            r@ == match old(self).cached() {
                Some(c) => c,
                None => old(self).encoding(),
            },
            final(self).cached() == Some(r@),
            final(self).kind == old(self).kind,
            final(self).connection_id == old(self).connection_id,
            final(self).packet_id == old(self).packet_id,
            final(self).data_length == old(self).data_length,
            final(self).data == old(self).data,
    {
        if self.cache.bytes.is_none() {
            let mut packed: Vec<u8> = Vec::new();
            packed.push(self.kind.to_byte());
            append_u32_be(&mut packed, self.connection_id);
            append_u32_be(&mut packed, self.packet_id);
            append_u32_be(&mut packed, self.data_length);
            match &self.data {
                Some(data) => {
                    let mut i: usize = 0;
                    let ghost start = packed@;
                    while i < data.len()
                        invariant
                            i <= data@.len(),
                            packed@ == start + data@.subrange(0, i as int),
                        decreases data@.len() - i,
                    {
                        packed.push(data[i]);
                        i = i + 1;
                        assert(data@.subrange(0, i as int) == data@.subrange(0, i - 1) + seq![data@[i - 1]]);
                    }
                    assert(data@.subrange(0, data@.len() as int) == data@);
                },
                None => {},
            }
            assert(packed@ == self.encoding());
            self.cache = PackCache { bytes: Some(packed) };
        }
        match &self.cache.bytes {
            Some(c) => c.as_slice(),
            None => unreached(),
        }
    }

    /// A packet that opens connection `connection_id` to `address`.
    pub fn new_connect(packet_id: u32, connection_id: u32, address: &str) -> (p: Packet)
        ensures
            p.kind == PacketKind::Connect,
            p.connection_id == connection_id,
            p.packet_id == packet_id,
            p.data is Some,
            p.data_view() == address.spec_bytes(),
            p.data_length == address.spec_bytes().len() as u32,
            p.cached() is None,
    {
        let data = slice_to_vec(address.as_bytes());
        Packet {
            kind: PacketKind::Connect,
            connection_id,
            packet_id,
            data_length: data.len() as u32,
            data: Some(data),
            cache: PackCache::empty(),
        }
    }

    /// A packet that carries `data` on connection `connection_id`.
    pub fn new_data(packet_id: u32, connection_id: u32, data: Vec<u8>) -> (p: Packet)
        ensures
            p.kind == PacketKind::Data,
            p.connection_id == connection_id,
            p.packet_id == packet_id,
            p.data == Some(data),
            p.data_length == data@.len() as u32,
            p.cached() is None,
    {
        Packet {
            kind: PacketKind::Data,
            connection_id,
            packet_id,
            data_length: data.len() as u32,
            data: Some(data),
            cache: PackCache::empty(),
        }
    }

    /// A packet that closes connection `connection_id`.
    pub fn new_disconnect(packet_id: u32, connection_id: u32) -> (p: Packet)
        ensures
            p.kind == PacketKind::Disconnect,
            p.connection_id == connection_id,
            p.packet_id == packet_id,
            p.data is None,
            p.data_length == 0,
            p.cached() is None,
    {
        Packet {
            kind: PacketKind::Disconnect,
            connection_id,
            packet_id,
            data_length: 0,
            data: None,
            cache: PackCache::empty(),
        }
    }

    /// The destination address that a connect packet names: `None` for a packet of
    /// another kind, or where the data is not valid UTF-8.
    pub fn connect_address(&self) -> (r: Option<String>)
        requires
            self.kind == PacketKind::Connect ==> self.data is Some,
        ensures
            r is Some <==> self.kind == PacketKind::Connect && valid_utf8(self.data_view()),
            r matches Some(s) ==> s@ == decode_utf8(self.data_view()),
    {
        if self.kind != PacketKind::Connect {
            return None;
        }
        let data = match &self.data {
            Some(d) => d,
            None => unreached(),
        };
        match str_from_utf8(data.as_slice()) {
            Some(s) => {
                proof {
                    vstd::utf8::encode_utf8_decode_utf8(s@);
                }
                Some(s.to_owned())
            },
            None => None,
        }
    }

    /// The packet that a reader builds from a header and the `data_length` bytes
    /// that follow it on the wire.
    pub fn from_header(header: PacketHeader, data: Vec<u8>) -> (p: Packet)
        requires
            data@.len() == header.data_length,
        ensures
            p.header() == header,
            p.data == Some(data),
            p.cached() is None,
    {
        Packet {
            kind: header.kind,
            connection_id: header.connection_id,
            packet_id: header.packet_id,
            data_length: header.data_length,
            data: Some(data),
            cache: PackCache::empty(),
        }
    }
}

/// The bytes of a packet begin with a header that reads back as the packet's own
/// header, and the rest of them is the packet's data.
pub proof fn lemma_encoding_parses(p: Packet)
    ensures
        p.encoding().len() == PACKET_HEAD_SIZE + p.data_view().len(),
        parse_header(p.encoding().subrange(0, PACKET_HEAD_SIZE as int)) == Some(p.header()),
        p.encoding().subrange(PACKET_HEAD_SIZE as int, p.encoding().len() as int) == p.data_view(),
{
    let e = p.encoding();
    let h = e.subrange(0, PACKET_HEAD_SIZE as int);
    lemma_be_u32_roundtrip(p.connection_id);
    lemma_be_u32_roundtrip(p.packet_id);
    lemma_be_u32_roundtrip(p.data_length);
    assert(h.subrange(1, 5) == be_u32_bytes(p.connection_id));
    assert(h.subrange(5, 9) == be_u32_bytes(p.packet_id));
    assert(h.subrange(9, 13) == be_u32_bytes(p.data_length));
    assert(e.subrange(PACKET_HEAD_SIZE as int, e.len() as int) == p.data_view());
}

/// Header bytes that parse are exactly the bytes written for the header they
/// parse to: a header has one encoding.
pub proof fn lemma_parse_header_inverse(b: Seq<u8>)
    requires
        b.len() == PACKET_HEAD_SIZE,
        parse_header(b) is Some,
    ensures
        ({
            let h = parse_header(b)->Some_0;
            header_bytes(h.kind, h.connection_id, h.packet_id, h.data_length) == b
        }),
{
    let h = parse_header(b)->Some_0;
    lemma_be_u32_bytes_of_value(b.subrange(1, 5));
    lemma_be_u32_bytes_of_value(b.subrange(5, 9));
    lemma_be_u32_bytes_of_value(b.subrange(9, 13));
    assert(header_bytes(h.kind, h.connection_id, h.packet_id, h.data_length) =~= b);
}

/// A connect packet made for an address names that address again: the UTF-8
/// bytes of any text are valid and decode to the text.
pub proof fn lemma_connect_address_roundtrip(address: Seq<char>)
    ensures
        valid_utf8(encode_utf8(address)),
        decode_utf8(encode_utf8(address)) == address,
{
    vstd::utf8::encode_utf8_valid_utf8(address);
    vstd::utf8::encode_utf8_decode_utf8(address);
}

/// The byte layout of a packet on the wire: byte 0 is the kind (1 connect,
/// 2 disconnect, 3 data); bytes 1 to 4 are the connection id, 5 to 8 the packet
/// id and 9 to 12 the data length, each most significant byte first; then the
/// data, whatever its length.
pub proof fn lemma_encoding_layout(p: Packet)
    ensures
        ({
            let e = p.encoding();
            &&& e.len() == 13 + p.data_view().len()
            &&& e[0] == match p.kind {
                PacketKind::Connect => 1u8,
                PacketKind::Disconnect => 2u8,
                PacketKind::Data => 3u8,
            }
            &&& e[1] * 0x100_0000 + e[2] * 0x1_0000 + e[3] * 0x100 + e[4] == p.connection_id
            &&& e[5] * 0x100_0000 + e[6] * 0x1_0000 + e[7] * 0x100 + e[8] == p.packet_id
            &&& e[9] * 0x100_0000 + e[10] * 0x1_0000 + e[11] * 0x100 + e[12] == p.data_length
            &&& e.subrange(13, e.len() as int) == p.data_view()
        }),
{
    let e = p.encoding();
    lemma_be_u32_roundtrip(p.connection_id);
    lemma_be_u32_roundtrip(p.packet_id);
    lemma_be_u32_roundtrip(p.data_length);
    let c = be_u32_bytes(p.connection_id);
    let q = be_u32_bytes(p.packet_id);
    let l = be_u32_bytes(p.data_length);
    assert(e[1] == c[0] && e[2] == c[1] && e[3] == c[2] && e[4] == c[3]);
    assert(e[5] == q[0] && e[6] == q[1] && e[7] == q[2] && e[8] == q[3]);
    assert(e[9] == l[0] && e[10] == l[1] && e[11] == l[2] && e[12] == l[3]);
    assert(e.subrange(13, e.len() as int) =~= p.data_view());
}

/// How a reader takes a header apart: thirteen bytes give a header exactly when
/// byte 0 is 1, 2 or 3 (connect, disconnect, data), and then the connection id,
/// the packet id and the data length are bytes 1 to 4, 5 to 8 and 9 to 12, each
/// read most significant byte first.
pub proof fn lemma_parse_header_layout(b: Seq<u8>)
    requires
        b.len() == PACKET_HEAD_SIZE,
    ensures
        parse_header(b) is Some <==> 1 <= b[0] <= 3,
        parse_header(b) matches Some(h) ==> {
            &&& h.kind == if b[0] == 1 {
                PacketKind::Connect
            } else if b[0] == 2 {
                PacketKind::Disconnect
            } else {
                PacketKind::Data
            }
            &&& h.connection_id == b[1] * 0x100_0000 + b[2] * 0x1_0000 + b[3] * 0x100 + b[4]
            &&& h.packet_id == b[5] * 0x100_0000 + b[6] * 0x1_0000 + b[7] * 0x100 + b[8]
            &&& h.data_length == b[9] * 0x100_0000 + b[10] * 0x1_0000 + b[11] * 0x100 + b[12]
        },
{
    if parse_header(b) is Some {
        lemma_be_u32_bytes_of_value(b.subrange(1, 5));
        lemma_be_u32_bytes_of_value(b.subrange(5, 9));
        lemma_be_u32_bytes_of_value(b.subrange(9, 13));
    }
}

} // verus!
